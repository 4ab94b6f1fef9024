use vstd::prelude::*;
use vstd::slice::slice_subrange;
use vstd::string::StringSliceAdditionalSpecFns;
use vstd::utf8::{encode_utf8, valid_utf8};

use rustc_hash::FxHashMap;

use crate::bin::{decode_all, read_all};
use crate::fxmap::{name_index, name_index_get, name_index_insert, name_index_new};
use crate::posts::utf8_text;
use crate::tags::{last_position, name_views};

verus! {

/// What a gzip decoder over `bytes` reads out of them, every member in turn,
/// or nothing where they are not gzip.
pub uninterp spec fn gunzip_of(bytes: Seq<u8>) -> Option<Seq<u8>>;

/// Reads `bytes` to the end through flate2's `MultiGzDecoder`. The contract
/// names the result, a function of the bytes alone; the deflate format is not
/// restated.
#[verifier::external_body]
fn gunzip(bytes: &[u8]) -> (r: Option<Vec<u8>>)
    ensures
        match r {
            Some(v) => gunzip_of(bytes@) == Some(v@),
            None => gunzip_of(bytes@) is None,
        },
{
    let mut out = Vec::new();
    match std::io::Read::read_to_end(&mut flate2::read::MultiGzDecoder::new(bytes), &mut out) {
        Ok(_) => Some(out),
        Err(_) => None,
    }
}

/// The strings of column `column` of the first record batch of the Arrow IPC
/// file `bytes`, each null as nothing; nothing at all where the file, the
/// batch or a string column of that name is missing.
pub uninterp spec fn ipc_strings_of(bytes: Seq<u8>, column: Seq<char>) -> Option<Seq<Option<Seq<char>>>>;

/// The 32-bit float values, as their bit patterns, that the fixed-size list
/// column `column` of the first record batch of the Arrow IPC file `bytes`
/// holds, flattened in order; nothing where the file, the batch or such a
/// column is missing.
pub uninterp spec fn ipc_float_bits_of(bytes: Seq<u8>, column: Seq<char>) -> Option<Seq<u32>>;

/// The strings as views, each null read as nothing.
pub open spec fn string_views(column: Seq<Option<String>>) -> Seq<Option<Seq<char>>> {
    column.map_values(
        |o: Option<String>|
            match o {
                Some(s) => Some(s@),
                None => None,
            },
    )
}

/// Opens `bytes` with arrow's `FileReader`, takes its first record batch and
/// the string column `column` of it, and copies the strings out. The contract
/// names the result, a function of the bytes and the column name.
///
/// Arrow unwraps the lengths that the footer gives each block it reads, slices
/// the first bytes of each block without a length check, and slices each
/// buffer that a batch message lists out of the block's body with an
/// assertion. `ipc_safe` fails on every input where one of these would panic
/// (and on some where arrow only returns an error), so under `requires` those
/// reads return normally. The rest of arrow's decoder, which reports a
/// malformed batch as an error, is not restated.
#[verifier::external_body]
fn ipc_strings(bytes: &[u8], column: &str) -> (r: Option<Vec<Option<String>>>)
    requires
        ipc_safe(bytes@),
    ensures
        match r {
            Some(v) => ipc_strings_of(bytes@, column@) == Some(string_views(v@)),
            None => ipc_strings_of(bytes@, column@) is None,
        },
{
    let cursor = std::io::Cursor::new(bytes);
    let mut reader = arrow::ipc::reader::FileReader::try_new(cursor, None).ok()?;
    let batch = reader.next()?.ok()?;
    let any = batch.column_by_name(column)?.as_any();
    let text = any.downcast_ref::<arrow::array::StringArray>()?;
    Some(text.iter().map(|s| s.map(str::to_owned)).collect())
}

/// Opens `bytes` with arrow's `FileReader`, takes its first record batch, the
/// fixed-size list column `column` of it and the 32-bit floats under it, and
/// copies out their bit patterns. The contract names the result, a function
/// of the bytes and the column name. `requires` leaves out the inputs on which
/// arrow's block reads panic, as for `ipc_strings`.
#[verifier::external_body]
fn ipc_float_bits(bytes: &[u8], column: &str) -> (r: Option<Vec<u32>>)
    requires
        ipc_safe(bytes@),
    ensures
        match r {
            Some(v) => ipc_float_bits_of(bytes@, column@) == Some(v@),
            None => ipc_float_bits_of(bytes@, column@) is None,
        },
{
    let cursor = std::io::Cursor::new(bytes);
    let mut reader = arrow::ipc::reader::FileReader::try_new(cursor, None).ok()?;
    let batch = reader.next()?.ok()?;
    let any = batch.column_by_name(column)?.as_any();
    let list = any.downcast_ref::<arrow::array::FixedSizeListArray>()?;
    let flat = list.values().as_any().downcast_ref::<arrow::array::Float32Array>()?;
    Some(flat.values().iter().map(|v| v.to_bits()).collect())
}

/// The blocks that the Arrow IPC footer flatbuffer `footer` lists: its
/// dictionary blocks and its record-batch blocks, each as its offset, metadata
/// length and body length, a missing list read as empty; nothing where the
/// flatbuffer does not verify.
pub uninterp spec fn ipc_footer_blocks_of(footer: Seq<u8>) -> Option<(Seq<(i64, i32, i64)>, Seq<(i64, i32, i64)>)>;

/// Verifies `footer` with arrow's `root_as_footer`, under the default limits
/// that arrow's `FileReader` also uses, and copies out the offset and lengths
/// of each block it lists. The contract names the result, a function of the
/// bytes alone.
#[verifier::external_body]
fn ipc_footer_blocks(footer: &[u8]) -> (r: Option<(Vec<(i64, i32, i64)>, Vec<(i64, i32, i64)>)>)
    ensures
        match r {
            Some((d, b)) => ipc_footer_blocks_of(footer@) == Some((d@, b@)),
            None => ipc_footer_blocks_of(footer@) is None,
        },
{
    let parsed = arrow::ipc::root_as_footer(footer).ok()?;
    let triple = |b: &arrow::ipc::Block| (b.offset(), b.metaDataLength(), b.bodyLength());
    let dictionaries = parsed.dictionaries().into_iter().flatten().map(triple).collect();
    let batches = parsed.recordBatches().into_iter().flatten().map(triple).collect();
    Some((dictionaries, batches))
}

/// The buffers, as offset and length, that the Arrow IPC message flatbuffer
/// `message` names: first those of its record batch, where it holds one that
/// lists them, then those of the data of its dictionary batch, where it holds
/// one that lists them; nothing where it does not verify.
pub uninterp spec fn ipc_message_buffers_of(message: Seq<u8>) -> Option<(Option<Seq<(i64, i64)>>, Option<Seq<(i64, i64)>>)>;

/// A list of buffers as a sequence, where there is one.
pub open spec fn buffer_views(v: Option<Vec<(i64, i64)>>) -> Option<Seq<(i64, i64)>> {
    match v {
        Some(v) => Some(v@),
        None => None,
    }
}

/// Verifies `message` with arrow's `root_as_message` and copies out the
/// offset and length of each buffer that its record batch, or the data of its
/// dictionary batch, lists. The contract names the result, a function of the
/// bytes alone.
#[verifier::external_body]
fn ipc_message_buffers(message: &[u8]) -> (r: Option<(Option<Vec<(i64, i64)>>, Option<Vec<(i64, i64)>>)>)
    ensures
        match r {
            Some((x, y)) => ipc_message_buffers_of(message@) == Some((buffer_views(x), buffer_views(y))),
            None => ipc_message_buffers_of(message@) is None,
        },
{
    let parsed = arrow::ipc::root_as_message(message).ok()?;
    let batch = parsed.header_as_record_batch().and_then(|b| b.buffers());
    let data = parsed.header_as_dictionary_batch().and_then(|d| d.data()).and_then(|b| b.buffers());
    let batch = batch.map(|v| v.iter().map(|b| (b.offset(), b.length())).collect());
    let data = data.map(|v| v.iter().map(|b| (b.offset(), b.length())).collect());
    Some((batch, data))
}

/// The little-endian word at `at`.
pub open spec fn le_word(bytes: Seq<u8>, at: int) -> int {
    bytes[at] + 256 * bytes[at + 1] + 65536 * bytes[at + 2] + 16777216 * bytes[at + 3]
}

/// Where the footer of an Arrow IPC file lies: just before its last ten
/// bytes, which give the footer's length and close with the magic. Nothing
/// where the file is shorter than that, does not close with the magic, or
/// gives a length that is negative as a signed word or longer than what
/// precedes it.
pub open spec fn footer_span(bytes: Seq<u8>) -> Option<(int, int)> {
    let n = bytes.len() as int;
    if n >= 10 && bytes.subrange(n - 6, n) == arrow_magic() && le_word(bytes, n - 10) <= 0x7fff_ffff
        && le_word(bytes, n - 10) <= n - 10 {
        Some((n - 10 - le_word(bytes, n - 10), n - 10))
    } else {
        None
    }
}

/// The prefix before a message's flatbuffer: eight bytes after a
/// continuation marker, else four.
pub open spec fn message_start(block: Seq<u8>) -> int {
    if block.take(4) == seq![255u8, 255u8, 255u8, 255u8] {
        8
    } else {
        4
    }
}

/// A buffer, as offset and length, lies within `body` bytes.
pub open spec fn buffer_fits(buffer: (i64, i64), body: int) -> bool {
    0 <= buffer.0 && 0 <= buffer.1 && buffer.0 + buffer.1 <= body
}

/// The buffers that the message of `block` lists for what arrow reads out of
/// it: a dictionary batch's data in a dictionary block, else a record batch.
pub open spec fn listed_buffers(block: Seq<u8>, dictionary: bool) -> Option<Seq<(i64, i64)>> {
    match ipc_message_buffers_of(block.subrange(message_start(block), block.len() as int)) {
        Some(both) => if dictionary {
            both.1
        } else {
            both.0
        },
        None => None,
    }
}

/// Every buffer that the message of `block` lists lies within the `body`
/// bytes after its metadata.
pub open spec fn buffers_fit(block: Seq<u8>, body: int, dictionary: bool) -> bool {
    let named = listed_buffers(block, dictionary);
    named is Some ==> forall|i: int| 0 <= i < named->0.len() ==> buffer_fits(#[trigger] named->0[i], body)
}

/// Arrow reads `block` of the file `bytes`, a dictionary block or a record
/// batch block, without panicking: both lengths are non-negative, the block
/// holds at least a message prefix and fits in the file, and where it lies
/// inside the file every buffer its message lists fits in its body.
pub open spec fn block_reads(bytes: Seq<u8>, block: (i64, i32, i64), dictionary: bool) -> bool {
    let offset = block.0;
    let meta = block.1;
    let body = block.2;
    &&& 0 <= meta
    &&& 0 <= body
    &&& 8 <= meta + body <= bytes.len()
    &&& (0 <= offset && offset + meta + body <= bytes.len()) ==> buffers_fit(
        bytes.subrange(offset as int, offset + meta + body),
        body as int,
        dictionary,
    )
}

/// Arrow's `FileReader` opens `bytes` and reads its first record batch
/// without panicking: the footer can be found and verified, and every
/// dictionary block and the first record-batch block read.
pub open spec fn ipc_safe(bytes: Seq<u8>) -> bool {
    match footer_span(bytes) {
        Some((start, end)) => match ipc_footer_blocks_of(bytes.subrange(start, end)) {
            Some((dictionaries, batches)) => {
                &&& forall|i: int|
                    0 <= i < dictionaries.len() ==> block_reads(bytes, #[trigger] dictionaries[i], true)
                &&& batches.len() > 0 ==> block_reads(bytes, batches[0], false)
            },
            None => false,
        },
        None => false,
    }
}

fn footer_span_of(bytes: &[u8]) -> (r: Option<(usize, usize)>)
    ensures
        match r {
            Some((s, e)) => footer_span(bytes@) == Some((s as int, e as int)),
            None => footer_span(bytes@) is None,
        },
{
    let n = bytes.len();
    if n < 10 {
        return None;
    }
    let tail = slice_subrange(bytes, n - 6, n);
    let magic = tail[0] == 65 && tail[1] == 82 && tail[2] == 82 && tail[3] == 79 && tail[4] == 87
        && tail[5] == 49;
    proof {
        if magic {
            assert(tail@ =~= arrow_magic());
        } else if tail@ == arrow_magic() {
            assert(tail@[0] == 65u8 && tail@[1] == 82u8 && tail@[2] == 82u8);
            assert(tail@[3] == 79u8 && tail@[4] == 87u8 && tail@[5] == 49u8);
        }
    }
    if !magic {
        return None;
    }
    let w: u64 = bytes[n - 10] as u64 + 256 * (bytes[n - 9] as u64) + 65536 * (bytes[n - 8] as u64)
        + 16777216 * (bytes[n - 7] as u64);
    assert(w == le_word(bytes@, n - 10));
    if w > 0x7fff_ffff || w > (n - 10) as u64 {
        return None;
    }
    let len = w as usize;
    Some((n - 10 - len, n - 10))
}

fn block_reads_check(bytes: &[u8], block: (i64, i32, i64), dictionary: bool) -> (r: bool)
    ensures
        r == block_reads(bytes@, block, dictionary),
{
    let (offset, meta, body) = block;
    if meta < 0 || body < 0 {
        return false;
    }
    let total: u128 = meta as u128 + body as u128;
    if total < 8 || total > bytes.len() as u128 {
        return false;
    }
    if offset < 0 || offset as u128 + total > bytes.len() as u128 {
        return true;
    }
    let start = offset as usize;
    let end = (offset as u128 + total) as usize;
    let piece = slice_subrange(bytes, start, end);
    let marker = piece[0] == 255 && piece[1] == 255 && piece[2] == 255 && piece[3] == 255;
    proof {
        let four = seq![255u8, 255u8, 255u8, 255u8];
        if marker {
            assert(piece@.take(4) =~= four);
        } else if piece@.take(4) == four {
            assert(piece@.take(4)[0] == 255u8 && piece@.take(4)[1] == 255u8);
            assert(piece@.take(4)[2] == 255u8 && piece@.take(4)[3] == 255u8);
        }
    }
    let from: usize = if marker {
        8
    } else {
        4
    };
    assert(from == message_start(piece@));
    let message = slice_subrange(piece, from, piece.len());
    assert(piece@ == bytes@.subrange(offset as int, offset + meta + body));
    let buffers = match ipc_message_buffers(message) {
        Some((batch, data)) => {
            let listed = if dictionary {
                data
            } else {
                batch
            };
            match listed {
                Some(v) => v,
                None => {
                    return true;
                },
            }
        },
        None => {
            return true;
        },
    };
    let mut i: usize = 0;
    while i < buffers.len()
        invariant
            i <= buffers@.len(),
            0 <= body,
            listed_buffers(piece@, dictionary) == Some(buffers@),
            block == (offset, meta, body),
            message@ == piece@.subrange(message_start(piece@), piece@.len() as int),
            piece@ == bytes@.subrange(offset as int, offset + meta + body),
            0 <= meta,
            8 <= meta + body <= bytes@.len(),
            0 <= offset,
            offset + meta + body <= bytes@.len(),
            forall|k: int| 0 <= k < i ==> buffer_fits(#[trigger] buffers@[k], body as int),
        decreases buffers@.len() - i,
    {
        let (at, len) = buffers[i];
        if at < 0 || len < 0 || at as u128 + len as u128 > body as u128 {
            assert(!buffer_fits(buffers@[i as int], body as int));
            assert(buffers@[i as int] == listed_buffers(piece@, dictionary)->0[i as int]);
            assert(!buffers_fit(piece@, body as int, dictionary));
            return false;
        }
        i = i + 1;
    }
    true
}

/// Whether arrow can open `bytes` and read its first record batch without
/// panicking.
pub fn ipc_safe_check(bytes: &[u8]) -> (r: bool)
    ensures
        r == ipc_safe(bytes@),
{
    let (start, end) = match footer_span_of(bytes) {
        Some(span) => span,
        None => {
            return false;
        },
    };
    let (dictionaries, batches) = match ipc_footer_blocks(slice_subrange(bytes, start, end)) {
        Some(blocks) => blocks,
        None => {
            return false;
        },
    };
    let mut i: usize = 0;
    while i < dictionaries.len()
        invariant
            i <= dictionaries@.len(),
            footer_span(bytes@) == Some((start as int, end as int)),
            ipc_footer_blocks_of(bytes@.subrange(start as int, end as int)) == Some(
                (dictionaries@, batches@),
            ),
            forall|k: int| 0 <= k < i ==> block_reads(bytes@, #[trigger] dictionaries@[k], true),
        decreases dictionaries@.len() - i,
    {
        if !block_reads_check(bytes, dictionaries[i], true) {
            assert(!block_reads(bytes@, dictionaries@[i as int], true));
            assert(dictionaries@[i as int] == (ipc_footer_blocks_of(
                bytes@.subrange(start as int, end as int),
            )->0).0[i as int]);
            return false;
        }
        i = i + 1;
    }
    if batches.len() > 0 && !block_reads_check(bytes, batches[0], false) {
        assert(!block_reads(bytes@, batches@[0], false));
        assert(batches@ == (ipc_footer_blocks_of(bytes@.subrange(start as int, end as int))->0).1);
        return false;
    }
    true
}

/// Where the name text starts in a raw name blob: after `n_old + 1` offsets.
pub open spec fn legacy_head(n_old: int) -> int {
    (n_old + 1) * 4
}

/// The offsets at the start of a raw name blob.
pub open spec fn legacy_offsets(blob: Seq<u8>, n_old: int) -> Seq<u32> {
    decode_all::<u32>(blob.take(legacy_head(n_old)))
}

/// The name text of a raw name blob.
pub open spec fn legacy_text(blob: Seq<u8>, n_old: int) -> Seq<u8> {
    blob.skip(legacy_head(n_old))
}

/// The bytes of name `i` of a raw name blob.
pub open spec fn legacy_slice(blob: Seq<u8>, n_old: int, i: int) -> Seq<u8> {
    let off = legacy_offsets(blob, n_old);
    legacy_text(blob, n_old).subrange(off[i] as int, off[i + 1] as int)
}

/// Name `i` of a raw name blob can be cut out: its offsets are in order and
/// within the text, and its bytes are UTF-8.
pub open spec fn legacy_name_ok(blob: Seq<u8>, n_old: int, i: int) -> bool {
    let off = legacy_offsets(blob, n_old);
    &&& off[i] <= off[i + 1] <= legacy_text(blob, n_old).len()
    &&& valid_utf8(legacy_slice(blob, n_old, i))
}

/// A raw name blob holds `n_old` names: the offsets fit, the text is UTF-8
/// and every name can be cut out of it.
pub open spec fn legacy_ok(blob: Seq<u8>, n_old: int) -> bool {
    &&& legacy_head(n_old) <= blob.len()
    &&& valid_utf8(legacy_text(blob, n_old))
    &&& forall|i: int| 0 <= i < n_old ==> #[trigger] legacy_name_ok(blob, n_old, i)
}

/// The names of a raw name blob, as written before the Arrow format: `n_old
/// + 1` little-endian `u32` offsets, then the UTF-8 text the offsets cut into
/// the names. Nothing where the blob is too short, the text is not UTF-8, or
/// a name's offsets are out of order, past the text or inside a character.
pub fn legacy_names(blob: &[u8], n_old: usize) -> (r: Option<Vec<String>>)
    ensures
        r is Some <==> legacy_ok(blob@, n_old as int),
        r matches Some(names) ==> {
            &&& names@.len() == n_old
            &&& forall|i: int|
                0 <= i < n_old ==> encode_utf8(#[trigger] names@[i]@) == legacy_slice(blob@, n_old as int, i)
        },
{
    let blob_len = blob.len();
    let head: usize = match n_old.checked_add(1) {
        Some(c) => match c.checked_mul(4) {
            Some(h) => h,
            None => {
                assert(legacy_head(n_old as int) > blob_len);
                return None;
            },
        },
        None => {
            assert(legacy_head(n_old as int) > blob_len);
            return None;
        },
    };
    if head > blob.len() {
        return None;
    }
    let offsets: Vec<u32> = match read_all::<u32>(slice_subrange(blob, 0, head)) {
        Ok(v) => v,
        Err(_) => {
            assert(head % 4 == 0);
            return None;
        },
    };
    assert(blob@.subrange(0, head as int) =~= blob@.take(head as int));
    assert(offsets@ == legacy_offsets(blob@, n_old as int));
    assert(offsets@.len() == n_old + 1);
    let text = slice_subrange(blob, head, blob.len());
    assert(text@ =~= legacy_text(blob@, n_old as int));
    if utf8_text(text).is_none() {
        return None;
    }
    let mut names: Vec<String> = Vec::new();
    let mut i: usize = 0;
    while i < n_old
        invariant
            i <= n_old,
            offsets@ == legacy_offsets(blob@, n_old as int),
            offsets@.len() == n_old + 1,
            text@ == legacy_text(blob@, n_old as int),
            names@.len() == i,
            forall|j: int| 0 <= j < i ==> #[trigger] legacy_name_ok(blob@, n_old as int, j),
            forall|j: int|
                0 <= j < i ==> encode_utf8(#[trigger] names@[j]@) == legacy_slice(blob@, n_old as int, j),
        decreases n_old - i,
    {
        let a = offsets[i] as usize;
        let b = offsets[i + 1] as usize;
        if a > b || b > text.len() {
            assert(!legacy_name_ok(blob@, n_old as int, i as int));
            return None;
        }
        let piece = slice_subrange(text, a, b);
        assert(piece@ == legacy_slice(blob@, n_old as int, i as int));
        match utf8_text(piece) {
            Some(t) => {
                names.push(t.to_owned());
            },
            None => {
                assert(!legacy_name_ok(blob@, n_old as int, i as int));
                return None;
            },
        }
        i = i + 1;
    }
    Some(names)
}

/// The bytes an Arrow IPC file starts with.
pub open spec fn arrow_magic() -> Seq<u8> {
    seq![65u8, 82u8, 82u8, 79u8, 87u8, 49u8]
}

/// `bytes` start as an Arrow IPC file does.
pub open spec fn starts_arrow(bytes: Seq<u8>) -> bool {
    bytes.len() >= 6 && bytes.take(6) == arrow_magic()
}

fn is_arrow(bytes: &[u8]) -> (r: bool)
    ensures
        r == starts_arrow(bytes@),
{
    if bytes.len() < 6 {
        return false;
    }
    let r = bytes[0] == 65 && bytes[1] == 82 && bytes[2] == 82 && bytes[3] == 79 && bytes[4] == 87
        && bytes[5] == 49;
    assert(r ==> bytes@.take(6) =~= arrow_magic());
    assert(!r ==> bytes@.take(6) != arrow_magic()) by {
        if bytes@.take(6) == arrow_magic() {
            assert(bytes@.take(6)[0] == 65u8);
            assert(bytes@.take(6)[5] == 49u8);
        }
    }
    r
}

/// Consecutive words taken two at a time, a lone last word left out.
pub open spec fn word_pairs(words: Seq<u32>) -> Seq<(u32, u32)> {
    Seq::new(words.len() / 2, |i: int| (words[2 * i], words[2 * i + 1]))
}

fn pairs_of(words: &Vec<u32>) -> (out: Vec<(u32, u32)>)
    ensures
        out@ == word_pairs(words@),
{
    let mut out: Vec<(u32, u32)> = Vec::new();
    let half = words.len() / 2;
    let mut i: usize = 0;
    while i < half
        invariant
            i <= half == words@.len() / 2,
            words@.len() <= usize::MAX,
            out@.len() == i,
            forall|k: int| 0 <= k < i ==> #[trigger] out@[k] == (words@[2 * k], words@[2 * k + 1]),
        decreases half - i,
    {
        assert(2 * i + 1 < words@.len());
        out.push((words[2 * i], words[2 * i + 1]));
        i = i + 1;
    }
    assert(out@ =~= word_pairs(words@));
    out
}

/// Each string, a null read as the empty string.
pub open spec fn or_empty(column: Seq<Option<Seq<char>>>) -> Seq<Seq<char>> {
    column.map_values(
        |o: Option<Seq<char>>|
            match o {
                Some(s) => s,
                None => Seq::empty(),
            },
    )
}

fn strings_or_empty(column: Vec<Option<String>>) -> (out: Vec<String>)
    ensures
        name_views(out@) == or_empty(string_views(column@)),
{
    let mut out: Vec<String> = Vec::new();
    let mut i: usize = 0;
    while i < column.len()
        invariant
            i <= column@.len(),
            out@.len() == i,
            forall|k: int| 0 <= k < i ==> (#[trigger] out@[k])@ == or_empty(string_views(column@))[k],
        decreases column@.len() - i,
    {
        match &column[i] {
            Some(s) => out.push(s.clone()),
            None => out.push(String::new()),
        }
        i = i + 1;
    }
    assert(name_views(out@) =~= or_empty(string_views(column@)));
    out
}

/// The layout of a previous dataset, from its gzipped position and name
/// files: each position as the bit patterns of its two floats, and each name.
/// An Arrow file is read by its `position` and `name` columns; an older raw
/// one as pairs of little-endian words and a name blob of `n_old` names.
/// Nothing where a file does not unzip or does not read, a raw position file
/// ends inside a pair, or an Arrow file holds block or buffer lengths on
/// which arrow's reader would panic.
pub fn previous_layout(positions_gz: &[u8], names_gz: &[u8], n_old: usize) -> (r: Option<(Vec<(u32, u32)>, Vec<String>)>)
    ensures
        r is Some <==> ({
            &&& gunzip_of(positions_gz@) is Some
            &&& gunzip_of(names_gz@) is Some
            &&& if starts_arrow(gunzip_of(positions_gz@)->0) {
                &&& ipc_safe(gunzip_of(positions_gz@)->0)
                &&& ipc_safe(gunzip_of(names_gz@)->0)
                &&& ipc_float_bits_of(gunzip_of(positions_gz@)->0, "position"@) is Some
                &&& ipc_strings_of(gunzip_of(names_gz@)->0, "name"@) is Some
            } else {
                &&& (gunzip_of(positions_gz@)->0).len() % 8 == 0
                &&& legacy_ok(gunzip_of(names_gz@)->0, n_old as int)
            }
        }),
        r matches Some((pos, names)) ==> if starts_arrow(gunzip_of(positions_gz@)->0) {
            &&& pos@ == word_pairs(ipc_float_bits_of(gunzip_of(positions_gz@)->0, "position"@)->0)
            &&& name_views(names@) == or_empty(ipc_strings_of(gunzip_of(names_gz@)->0, "name"@)->0)
        } else {
            &&& pos@ == word_pairs(decode_all::<u32>(gunzip_of(positions_gz@)->0))
            &&& names@.len() == n_old
            &&& forall|i: int|
                0 <= i < n_old ==> encode_utf8(#[trigger] names@[i]@) == legacy_slice(
                    gunzip_of(names_gz@)->0,
                    n_old as int,
                    i,
                )
        },
{
    let position_blob = match gunzip(positions_gz) {
        Some(b) => b,
        None => {
            return None;
        },
    };
    let names_blob = match gunzip(names_gz) {
        Some(b) => b,
        None => {
            return None;
        },
    };
    if is_arrow(position_blob.as_slice()) {
        if !ipc_safe_check(position_blob.as_slice()) || !ipc_safe_check(names_blob.as_slice()) {
            return None;
        }
        let bits = match ipc_float_bits(position_blob.as_slice(), "position") {
            Some(v) => v,
            None => {
                return None;
            },
        };
        let column = match ipc_strings(names_blob.as_slice(), "name") {
            Some(v) => v,
            None => {
                return None;
            },
        };
        Some((pairs_of(&bits), strings_or_empty(column)))
    } else {
        if position_blob.len() % 8 != 0 {
            return None;
        }
        let words: Vec<u32> = match read_all::<u32>(position_blob.as_slice()) {
            Ok(v) => v,
            Err(_) => {
                return None;
            },
        };
        let names = match legacy_names(names_blob.as_slice(), n_old) {
            Some(v) => v,
            None => {
                return None;
            },
        };
        Some((pairs_of(&words), names))
    }
}

/// Where each of the first `n_nodes` names sat in a previous layout: the last
/// of the first `n_positions` previous names that is the same name, or
/// nothing where none is.
pub fn seed_slots(names: &[String], n_nodes: usize, previous: &[String], n_positions: usize) -> (out: Vec<Option<u32>>)
    requires
        n_nodes <= names@.len(),
        previous@.len() <= u32::MAX,
    ensures
        out@.len() == n_nodes,
        forall|i: int|
            0 <= i < n_nodes ==> #[trigger] out@[i] == match last_position(
                name_views(previous@).take(
                    if previous@.len() <= n_positions {
                        previous@.len() as int
                    } else {
                        n_positions as int
                    },
                ),
                names@[i]@,
            ) {
                Some(j) => Some(j as u32),
                None => None,
            },
{
    let m = if previous.len() <= n_positions {
        previous.len()
    } else {
        n_positions
    };
    let ghost views = name_views(previous@);
    let mut index: FxHashMap<String, u32> = name_index_new();
    let mut j: usize = 0;
    while j < m
        invariant
            j <= m <= previous@.len() <= u32::MAX,
            views == name_views(previous@),
            forall|name: Seq<char>| #[trigger]
                name_index(index).contains_key(name) <==> last_position(views.take(j as int), name) is Some,
            forall|name: Seq<char>|
                #[trigger] name_index(index).contains_key(name) ==> name_index(index)[name]
                    == last_position(views.take(j as int), name)->0,
        decreases m - j,
    {
        let name = previous[j].clone();
        proof {
            let t = views.take(j as int + 1);
            assert(t.drop_last() =~= views.take(j as int));
            assert(t.last() == previous@[j as int]@);
        }
        name_index_insert(&mut index, name, j as u32);
        j = j + 1;
    }
    let mut out: Vec<Option<u32>> = Vec::new();
    let mut i: usize = 0;
    while i < n_nodes
        invariant
            i <= n_nodes <= names@.len(),
            m <= previous@.len() <= u32::MAX,
            views == name_views(previous@),
            forall|name: Seq<char>| #[trigger]
                name_index(index).contains_key(name) <==> last_position(views.take(m as int), name) is Some,
            forall|name: Seq<char>|
                #[trigger] name_index(index).contains_key(name) ==> name_index(index)[name]
                    == last_position(views.take(m as int), name)->0,
            out@.len() == i,
            forall|k: int|
                0 <= k < i ==> #[trigger] out@[k] == match last_position(views.take(m as int), names@[k]@) {
                    Some(p) => Some(p as u32),
                    None => None,
                },
        decreases n_nodes - i,
    {
        let found = name_index_get(&index, names[i].as_str());
        proof {
            crate::tags::lemma_last_position_bound(views.take(m as int), names@[i as int]@);
        }
        out.push(found);
        i = i + 1;
    }
    out
}

} // verus!
