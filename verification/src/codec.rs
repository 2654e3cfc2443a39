//! The persistence codec: the store as bytes, and back.
//!
//! ```text
//! file      = magic version next_id count record*
//! magic     = 50 4b 4c 49
//! version   = u32, little endian
//! next_id   = u64, little endian
//! count     = u64, the number of records
//! record    = id usage_count last_used name command icon source_path
//! last_used = 00 | 01 u64
//! text      = u64 length in bytes, then that many bytes of UTF-8
//! ```
//!
//! The search directories are configuration and are not part of the file.

use crate::record::{AppRecord, AppRecordView, ExecutionSpec, ExecutionSpecView};
use crate::store::{after_usage, used_record, IndexStore, IndexStoreView};
use crate::store_laws::lemma_usage_counts;
use vstd::bytes::{
    lemma_auto_spec_u32_to_from_le_bytes, lemma_auto_spec_u64_to_from_le_bytes,
    spec_u32_from_le_bytes, spec_u32_to_le_bytes, spec_u64_from_le_bytes, spec_u64_to_le_bytes,
    u32_from_le_bytes, u32_to_le_bytes, u64_from_le_bytes, u64_to_le_bytes,
};
use vstd::prelude::*;
use vstd::slice::{slice_subrange, slice_to_vec};
use vstd::utf8::{
    decode_utf8, decode_utf8_encode_utf8, encode_utf8, encode_utf8_decode_utf8,
    encode_utf8_valid_utf8, valid_utf8,
};

verus! {

/// The version of the format that this codec writes and reads.
pub const FORMAT_VERSION: u32 = 1;

/// Why a sequence of bytes is not a stored index.
#[derive(Debug, PartialEq, Eq, Clone, Copy, Structural)]
pub enum DecodeError {
    /// The bytes end before the value that was being read.
    Truncated,
    /// The bytes do not start with the magic number of the format.
    BadMagic,
    /// The file was written in another version of the format.
    UnsupportedVersion,
    /// The marker in front of a last-use time is neither 0 nor 1.
    BadTag,
    /// A text is not UTF-8.
    BadText,
    /// Bytes follow the last record.
    TrailingBytes,
    /// The records break the invariant of a store.
    InvalidStore,
}

/// The four bytes that every file starts with.
pub open spec fn magic() -> Seq<u8> {
    seq![0x50u8, 0x4bu8, 0x4cu8, 0x49u8]
}

/// The bytes of a text: the length of its UTF-8 form, then that form.
pub open spec fn encode_text(text: Seq<char>) -> Seq<u8> {
    spec_u64_to_le_bytes(encode_utf8(text).len() as u64) + encode_utf8(text)
}

/// The bytes of a last-use time: a marker, then the time where there is one.
pub open spec fn encode_last_used(last_used: Option<u64>) -> Seq<u8> {
    match last_used {
        None => seq![0u8],
        Some(t) => seq![1u8] + spec_u64_to_le_bytes(t),
    }
}

/// The bytes of one record, field after field.
pub open spec fn encode_record(r: AppRecordView) -> Seq<u8> {
    spec_u64_to_le_bytes(r.id) + spec_u64_to_le_bytes(r.usage_count) + encode_last_used(
        r.last_used,
    ) + encode_text(r.name) + encode_text(r.launch.command) + encode_text(r.launch.icon)
        + encode_text(r.source_path)
}

/// The bytes of the records, one after the other.
pub open spec fn encode_records(records: Seq<AppRecordView>) -> Seq<u8>
    decreases records.len(),
{
    if records.len() == 0 {
        Seq::empty()
    } else {
        encode_record(records[0]) + encode_records(records.drop_first())
    }
}

/// The bytes of a store.
pub open spec fn encode_store(store: IndexStoreView) -> Seq<u8> {
    magic() + spec_u32_to_le_bytes(FORMAT_VERSION) + spec_u64_to_le_bytes(store.next_id)
        + spec_u64_to_le_bytes(store.records.len() as u64) + encode_records(store.records)
}

/// The lengths of the record's texts can be written down as `u64`.
pub open spec fn record_fits(r: AppRecordView) -> bool {
    &&& encode_utf8(r.name).len() <= u64::MAX
    &&& encode_utf8(r.launch.command).len() <= u64::MAX
    &&& encode_utf8(r.launch.icon).len() <= u64::MAX
    &&& encode_utf8(r.source_path).len() <= u64::MAX
}

/// Every length in the store can be written down as `u64`. This holds of
/// every store in memory.
pub open spec fn store_fits(store: IndexStoreView) -> bool {
    &&& store.records.len() <= u64::MAX
    &&& forall|i: int| 0 <= i < store.records.len() ==> record_fits(#[trigger] store.records[i])
}

/// Reads a `u64` off the front of `input`; gives the value and what follows.
#[verifier::opaque]
pub open spec fn parse_u64(input: Seq<u8>) -> Result<(u64, Seq<u8>), DecodeError> {
    if input.len() < 8 {
        Err(DecodeError::Truncated)
    } else {
        Ok((spec_u64_from_le_bytes(input.take(8)), input.skip(8)))
    }
}

/// Reads a text off the front of `input`; gives the text and what follows.
#[verifier::opaque]
pub open spec fn parse_text(input: Seq<u8>) -> Result<(Seq<char>, Seq<u8>), DecodeError> {
    match parse_u64(input) {
        Err(e) => Err(e),
        Ok((n, rest)) => if rest.len() < n {
            Err(DecodeError::Truncated)
        } else if !valid_utf8(rest.take(n as int)) {
            Err(DecodeError::BadText)
        } else {
            Ok((decode_utf8(rest.take(n as int)), rest.skip(n as int)))
        },
    }
}

/// Reads a last-use time off the front of `input`.
#[verifier::opaque]
pub open spec fn parse_last_used(input: Seq<u8>) -> Result<(Option<u64>, Seq<u8>), DecodeError> {
    if input.len() < 1 {
        Err(DecodeError::Truncated)
    } else if input[0] == 0 {
        Ok((None, input.skip(1)))
    } else if input[0] == 1 {
        match parse_u64(input.skip(1)) {
            Err(e) => Err(e),
            Ok((t, rest)) => Ok((Some(t), rest)),
        }
    } else {
        Err(DecodeError::BadTag)
    }
}

/// Reads one record off the front of `input`; stops at the first fault.
#[verifier::opaque]
pub open spec fn parse_record(input: Seq<u8>) -> Result<(AppRecordView, Seq<u8>), DecodeError> {
    match parse_u64(input) {
        Err(e) => Err(e),
        Ok((id, rest)) => match parse_u64(rest) {
            Err(e) => Err(e),
            Ok((usage_count, rest)) => match parse_last_used(rest) {
                Err(e) => Err(e),
                Ok((last_used, rest)) => match parse_text(rest) {
                    Err(e) => Err(e),
                    Ok((name, rest)) => match parse_text(rest) {
                        Err(e) => Err(e),
                        Ok((command, rest)) => match parse_text(rest) {
                            Err(e) => Err(e),
                            Ok((icon, rest)) => match parse_text(rest) {
                                Err(e) => Err(e),
                                Ok((source_path, rest)) => Ok(
                                    (
                                        AppRecordView {
                                            id,
                                            name,
                                            launch: ExecutionSpecView { command, icon },
                                            usage_count,
                                            last_used,
                                            source_path,
                                        },
                                        rest,
                                    ),
                                ),
                            },
                        },
                    },
                },
            },
        },
    }
}

/// Reads `count` records off the front of `input`; stops at the first fault.
pub open spec fn parse_records(input: Seq<u8>, count: nat) -> Result<
    (Seq<AppRecordView>, Seq<u8>),
    DecodeError,
>
    decreases count,
{
    if count == 0 {
        Ok((Seq::empty(), input))
    } else {
        match parse_record(input) {
            Err(e) => Err(e),
            Ok((r, rest)) => match parse_records(rest, (count - 1) as nat) {
                Err(e) => Err(e),
                Ok((more, rest)) => Ok((seq![r] + more, rest)),
            },
        }
    }
}

/// What the bytes after magic number and version hold.
pub open spec fn parse_body(input: Seq<u8>, search_paths: Seq<Seq<char>>) -> Result<
    IndexStoreView,
    DecodeError,
> {
    match parse_u64(input) {
        Err(e) => Err(e),
        Ok((next_id, rest)) => match parse_u64(rest) {
            Err(e) => Err(e),
            Ok((count, rest)) => match parse_records(rest, count as nat) {
                Err(e) => Err(e),
                Ok((records, rest)) => {
                    let store = IndexStoreView { records, search_paths, next_id };
                    if rest.len() != 0 {
                        Err(DecodeError::TrailingBytes)
                    } else if !store.valid() {
                        Err(DecodeError::InvalidStore)
                    } else {
                        Ok(store)
                    }
                },
            },
        },
    }
}

/// The store that the bytes hold, or what is wrong with them. The search
/// directories are taken from the caller.
pub open spec fn decode_store(input: Seq<u8>, search_paths: Seq<Seq<char>>) -> Result<
    IndexStoreView,
    DecodeError,
> {
    if input.len() < 4 {
        Err(DecodeError::Truncated)
    } else if input.take(4) != magic() {
        Err(DecodeError::BadMagic)
    } else if input.len() < 8 {
        Err(DecodeError::Truncated)
    } else if spec_u32_from_le_bytes(input.subrange(4, 8)) != FORMAT_VERSION {
        Err(DecodeError::UnsupportedVersion)
    } else {
        parse_body(input.skip(8), search_paths)
    }
}

/// What was written as a `u64` is read as that `u64`.
proof fn lemma_parse_u64(x: u64, rest: Seq<u8>)
    ensures
        parse_u64(spec_u64_to_le_bytes(x) + rest) == Ok::<(u64, Seq<u8>), DecodeError>((x, rest)),
{
    reveal(parse_u64);
    lemma_auto_spec_u64_to_from_le_bytes();
    let input = spec_u64_to_le_bytes(x) + rest;
    assert(input.take(8) =~= spec_u64_to_le_bytes(x));
    assert(input.skip(8) =~= rest);
}

/// What was written as a text is read as that text.
proof fn lemma_parse_text(text: Seq<char>, rest: Seq<u8>)
    requires
        encode_utf8(text).len() <= u64::MAX,
    ensures
        parse_text(encode_text(text) + rest) == Ok::<(Seq<char>, Seq<u8>), DecodeError>(
            (text, rest),
        ),
{
    reveal(parse_text);
    let body = encode_utf8(text);
    let n = body.len() as u64;
    assert(encode_text(text) + rest =~= spec_u64_to_le_bytes(n) + (body + rest));
    lemma_parse_u64(n, body + rest);
    assert((body + rest).take(n as int) =~= body);
    assert((body + rest).skip(n as int) =~= rest);
    encode_utf8_valid_utf8(text);
    encode_utf8_decode_utf8(text);
}

/// What was written as a last-use time is read as that time.
proof fn lemma_parse_last_used(last_used: Option<u64>, rest: Seq<u8>)
    ensures
        parse_last_used(encode_last_used(last_used) + rest) == Ok::<
            (Option<u64>, Seq<u8>),
            DecodeError,
        >((last_used, rest)),
{
    reveal(parse_last_used);
    let input = encode_last_used(last_used) + rest;
    match last_used {
        None => {
            assert(input.skip(1) =~= rest);
        },
        Some(t) => {
            assert(input.skip(1) =~= spec_u64_to_le_bytes(t) + rest);
            lemma_parse_u64(t, rest);
        },
    }
}

/// What was written as a record is read as that record.
proof fn lemma_parse_record(r: AppRecordView, rest: Seq<u8>)
    requires
        record_fits(r),
    ensures
        parse_record(encode_record(r) + rest) == Ok::<(AppRecordView, Seq<u8>), DecodeError>(
            (r, rest),
        ),
{
    let t4 = encode_text(r.source_path) + rest;
    let t3 = encode_text(r.launch.icon) + t4;
    let t2 = encode_text(r.launch.command) + t3;
    let t1 = encode_text(r.name) + t2;
    let t0 = encode_last_used(r.last_used) + t1;
    let u1 = spec_u64_to_le_bytes(r.usage_count) + t0;
    let u0 = spec_u64_to_le_bytes(r.id) + u1;
    reveal(parse_record);
    let e_id = spec_u64_to_le_bytes(r.id);
    let e_usage = spec_u64_to_le_bytes(r.usage_count);
    let e_last = encode_last_used(r.last_used);
    let e_name = encode_text(r.name);
    let e_command = encode_text(r.launch.command);
    let e_icon = encode_text(r.launch.icon);
    let e_path = encode_text(r.source_path);
    assert(encode_record(r) == e_id + e_usage + e_last + e_name + e_command + e_icon + e_path);
    assert(e_id + e_usage + e_last + e_name + e_command + e_icon + e_path + rest =~= e_id + (e_usage
        + (e_last + (e_name + (e_command + (e_icon + (e_path + rest)))))));
    assert(encode_record(r) + rest == u0);
    lemma_parse_u64(r.id, u1);
    lemma_parse_u64(r.usage_count, t0);
    lemma_parse_last_used(r.last_used, t1);
    lemma_parse_text(r.name, t2);
    lemma_parse_text(r.launch.command, t3);
    lemma_parse_text(r.launch.icon, t4);
    lemma_parse_text(r.source_path, rest);
}

/// What was written as a list of records is read as that list.
proof fn lemma_parse_records(records: Seq<AppRecordView>, rest: Seq<u8>)
    requires
        forall|i: int| 0 <= i < records.len() ==> record_fits(#[trigger] records[i]),
    ensures
        parse_records(encode_records(records) + rest, records.len()) == Ok::<
            (Seq<AppRecordView>, Seq<u8>),
            DecodeError,
        >((records, rest)),
    decreases records.len(),
{
    if records.len() == 0 {
        assert(encode_records(records) + rest =~= rest);
        assert(records =~= Seq::empty());
    } else {
        let more = records.drop_first();
        let tail = encode_records(more) + rest;
        assert(encode_records(records) + rest =~= encode_record(records[0]) + tail);
        lemma_parse_record(records[0], tail);
        assert forall|i: int| 0 <= i < more.len() implies record_fits(#[trigger] more[i]) by {
            assert(more[i] == records[i + 1]);
        }
        lemma_parse_records(more, rest);
        assert(seq![records[0]] + more =~= records);
    }
}

/// Appending a record to the store appends its bytes to the file.
pub proof fn lemma_encode_records_push(records: Seq<AppRecordView>, r: AppRecordView)
    ensures
        encode_records(records.push(r)) == encode_records(records) + encode_record(r),
    decreases records.len(),
{
    if records.len() == 0 {
        assert(records.push(r).drop_first() =~= Seq::<AppRecordView>::empty());
        assert(encode_records(Seq::<AppRecordView>::empty()) =~= Seq::<u8>::empty());
        assert(encode_records(records.push(r)) =~= encode_record(r));
        assert(encode_records(records) + encode_record(r) =~= encode_record(r));
    } else {
        assert(records.push(r).drop_first() =~= records.drop_first().push(r));
        lemma_encode_records_push(records.drop_first(), r);
        assert(encode_records(records.push(r)) =~= encode_records(records) + encode_record(r));
    }
}

/// Writing a store and reading the bytes back gives the store again:
/// every record with its identifier, name, execution data, usage count,
/// last use and path, in the same order, and the same next identifier.
pub proof fn lemma_round_trip(store: IndexStoreView)
    requires
        store.valid(),
        store_fits(store),
    ensures
        decode_store(encode_store(store), store.search_paths) == Ok::<IndexStoreView, DecodeError>(
            store,
        ),
{
    lemma_auto_spec_u32_to_from_le_bytes();
    let version = spec_u32_to_le_bytes(FORMAT_VERSION);
    let count = store.records.len() as u64;
    let b2 = encode_records(store.records);
    let b1 = spec_u64_to_le_bytes(count) + b2;
    let b0 = spec_u64_to_le_bytes(store.next_id) + b1;
    let input = encode_store(store);
    assert(input =~= magic() + version + b0);
    assert(input.take(4) =~= magic());
    assert(input.subrange(4, 8) =~= version);
    assert(input.skip(8) =~= b0);
    lemma_parse_u64(store.next_id, b1);
    lemma_parse_u64(count, b2);
    assert(b2 =~= b2 + Seq::<u8>::empty());
    lemma_parse_records(store.records, Seq::empty());
}


/// A `u64` that was read stood there as written by the codec.
proof fn lemma_u64_was_written(input: Seq<u8>)
    requires
        parse_u64(input) is Ok,
    ensures
        input == spec_u64_to_le_bytes(parse_u64(input)->Ok_0.0) + parse_u64(input)->Ok_0.1,
{
    reveal(parse_u64);
    lemma_auto_spec_u64_to_from_le_bytes();
    assert(input =~= input.take(8) + input.skip(8));
}

/// A text that was read stood there as written by the codec.
proof fn lemma_text_was_written(input: Seq<u8>)
    requires
        parse_text(input) is Ok,
    ensures
        input == encode_text(parse_text(input)->Ok_0.0) + parse_text(input)->Ok_0.1,
        encode_utf8(parse_text(input)->Ok_0.0).len() <= u64::MAX,
{
    reveal(parse_text);
    lemma_u64_was_written(input);
    let n = parse_u64(input)->Ok_0.0;
    let after = parse_u64(input)->Ok_0.1;
    let body = after.take(n as int);
    decode_utf8_encode_utf8(body);
    assert(after =~= body + after.skip(n as int));
    assert(input =~= spec_u64_to_le_bytes(n) + body + after.skip(n as int));
}

/// A last-use time that was read stood there as written by the codec.
proof fn lemma_last_used_was_written(input: Seq<u8>)
    requires
        parse_last_used(input) is Ok,
    ensures
        input == encode_last_used(parse_last_used(input)->Ok_0.0) + parse_last_used(
            input,
        )->Ok_0.1,
{
    reveal(parse_last_used);
    if input[0] == 0 {
        assert(input =~= seq![0u8] + input.skip(1));
    } else {
        lemma_u64_was_written(input.skip(1));
        let t = parse_u64(input.skip(1))->Ok_0.0;
        let rest = parse_u64(input.skip(1))->Ok_0.1;
        assert(input =~= seq![1u8] + input.skip(1));
        assert(input =~= seq![1u8] + spec_u64_to_le_bytes(t) + rest);
    }
}

/// A record that was read stood there as written by the codec.
proof fn lemma_record_was_written(input: Seq<u8>)
    requires
        parse_record(input) is Ok,
    ensures
        input == encode_record(parse_record(input)->Ok_0.0) + parse_record(input)->Ok_0.1,
        record_fits(parse_record(input)->Ok_0.0),
{
    reveal(parse_record);
    let r = parse_record(input)->Ok_0.0;
    let rest = parse_record(input)->Ok_0.1;
    lemma_u64_was_written(input);
    let i1 = parse_u64(input)->Ok_0.1;
    lemma_u64_was_written(i1);
    let i2 = parse_u64(i1)->Ok_0.1;
    lemma_last_used_was_written(i2);
    let i3 = parse_last_used(i2)->Ok_0.1;
    lemma_text_was_written(i3);
    let i4 = parse_text(i3)->Ok_0.1;
    lemma_text_was_written(i4);
    let i5 = parse_text(i4)->Ok_0.1;
    lemma_text_was_written(i5);
    let i6 = parse_text(i5)->Ok_0.1;
    lemma_text_was_written(i6);
    let e_id = spec_u64_to_le_bytes(r.id);
    let e_usage = spec_u64_to_le_bytes(r.usage_count);
    let e_last = encode_last_used(r.last_used);
    let e_name = encode_text(r.name);
    let e_command = encode_text(r.launch.command);
    let e_icon = encode_text(r.launch.icon);
    let e_path = encode_text(r.source_path);
    assert(input == e_id + (e_usage + (e_last + (e_name + (e_command + (e_icon + (e_path
        + rest)))))));
    assert(e_id + e_usage + e_last + e_name + e_command + e_icon + e_path + rest =~= e_id + (e_usage
        + (e_last + (e_name + (e_command + (e_icon + (e_path + rest)))))));
}

/// Records that were read stood there as written by the codec.
proof fn lemma_records_were_written(input: Seq<u8>, count: nat)
    requires
        parse_records(input, count) is Ok,
    ensures
        ({
            let records = parse_records(input, count)->Ok_0.0;
            let rest = parse_records(input, count)->Ok_0.1;
            &&& records.len() == count
            &&& input == encode_records(records) + rest
            &&& forall|i: int| 0 <= i < records.len() ==> record_fits(#[trigger] records[i])
        }),
    decreases count,
{
    let records = parse_records(input, count)->Ok_0.0;
    let rest = parse_records(input, count)->Ok_0.1;
    if count == 0 {
        assert(encode_records(records) + rest =~= input);
    } else {
        lemma_record_was_written(input);
        let r = parse_record(input)->Ok_0.0;
        let after = parse_record(input)->Ok_0.1;
        lemma_records_were_written(after, (count - 1) as nat);
        let more = parse_records(after, (count - 1) as nat)->Ok_0.0;
        assert(records == seq![r] + more);
        assert(records.drop_first() =~= more);
        assert(records[0] == r);
        assert(encode_records(records) == encode_record(r) + encode_records(more));
        assert(input =~= encode_records(records) + rest);
        assert forall|i: int| 0 <= i < records.len() implies record_fits(
            #[trigger] records[i],
        ) by {
            if i > 0 {
                assert(records[i] == more[i - 1]);
            }
        }
    }
}

/// The format has one way to write a store. Bytes that are read as a
/// store are the very bytes that writing that store gives, and the store
/// is valid.
pub proof fn lemma_decoded_is_canonical(input: Seq<u8>, search_paths: Seq<Seq<char>>)
    requires
        decode_store(input, search_paths) is Ok,
    ensures
        input == encode_store(decode_store(input, search_paths)->Ok_0),
        decode_store(input, search_paths)->Ok_0.valid(),
        store_fits(decode_store(input, search_paths)->Ok_0),
        decode_store(input, search_paths)->Ok_0.search_paths == search_paths,
{
    lemma_auto_spec_u32_to_from_le_bytes();
    let store = decode_store(input, search_paths)->Ok_0;
    let body = input.skip(8);
    lemma_u64_was_written(body);
    let b1 = parse_u64(body)->Ok_0.1;
    lemma_u64_was_written(b1);
    let count = parse_u64(b1)->Ok_0.0;
    let b2 = parse_u64(b1)->Ok_0.1;
    lemma_records_were_written(b2, count as nat);
    let rest = parse_records(b2, count as nat)->Ok_0.1;
    assert(rest =~= Seq::<u8>::empty());
    assert(b2 =~= encode_records(store.records));
    assert(input.subrange(4, 8).len() == 4);
    assert(input =~= input.take(4) + input.subrange(4, 8) + body);
    assert(body == spec_u64_to_le_bytes(store.next_id) + (spec_u64_to_le_bytes(count) + b2));
    assert(input =~= encode_store(store));
}

/// A launch that was recorded before the store was written is there when
/// the bytes are read back.
pub proof fn lemma_saved_usage_is_loaded(store: IndexStoreView, id: u64, now: u64)
    requires
        store.valid(),
        store_fits(store),
    ensures
        decode_store(encode_store(after_usage(store, id, now)), store.search_paths) == Ok::<
            IndexStoreView,
            DecodeError,
        >(after_usage(store, id, now)),
{
    let after = after_usage(store, id, now);
    lemma_usage_counts(store, id, now);
    assert forall|i: int| 0 <= i < after.records.len() implies record_fits(
        #[trigger] after.records[i],
    ) by {
        assert(record_fits(store.records[i]));
        if store.records[i].id == id {
            assert(after.records[i] == used_record(store.records[i], now));
        } else {
            assert(after.records[i] == store.records[i]);
        }
    }
    lemma_round_trip(after);
}

/// Calls `String::from_utf8`, which accepts exactly the byte sequences
/// that are well-formed UTF-8 and then returns the string made of those
/// bytes.
#[verifier::external_body]
fn text_from_utf8(bytes: Vec<u8>) -> (res: Option<String>)
    ensures
        res is Some <==> valid_utf8(bytes@),
        res matches Some(text) ==> encode_utf8(text@) == bytes@,
{
    match String::from_utf8(bytes) {
        Ok(text) => Some(text),
        Err(_) => None,
    }
}

/// Appends `bytes` to `out`.
fn put(out: &mut Vec<u8>, bytes: &[u8])
    ensures
        final(out)@ == old(out)@ + bytes@,
{
    let mut copy = slice_to_vec(bytes);
    out.append(&mut copy);
}

/// Appends `x`, little endian.
fn put_u64(out: &mut Vec<u8>, x: u64)
    ensures
        final(out)@ == old(out)@ + spec_u64_to_le_bytes(x),
{
    let mut word = u64_to_le_bytes(x);
    out.append(&mut word);
}

/// Appends a text with its length in front.
fn put_text(out: &mut Vec<u8>, text: &String)
    ensures
        final(out)@ == old(out)@ + encode_text(text@),
        encode_utf8(text@).len() <= u64::MAX,
{
    let bytes = text.as_str().as_bytes();
    put_u64(out, bytes.len() as u64);
    put(out, bytes);
    assert(out@ =~= old(out)@ + encode_text(text@));
}

/// Appends one record.
fn put_record(out: &mut Vec<u8>, r: &AppRecord)
    ensures
        final(out)@ == old(out)@ + encode_record(r@),
        record_fits(r@),
{
    put_u64(out, r.id);
    put_u64(out, r.usage_count);
    match r.last_used {
        None => {
            out.push(0u8);
            assert(out@ =~= old(out)@ + spec_u64_to_le_bytes(r.id) + spec_u64_to_le_bytes(
                r.usage_count,
            ) + encode_last_used(r.last_used));
        },
        Some(t) => {
            out.push(1u8);
            put_u64(out, t);
            assert(out@ =~= old(out)@ + spec_u64_to_le_bytes(r.id) + spec_u64_to_le_bytes(
                r.usage_count,
            ) + encode_last_used(r.last_used));
        },
    }
    put_text(out, &r.name);
    put_text(out, &r.launch.command);
    put_text(out, &r.launch.icon);
    put_text(out, &r.source_path);
    assert(out@ =~= old(out)@ + encode_record(r@));
}

/// Reads a `u64` at `pos`; gives the value and the position behind it.
fn read_u64(bytes: &[u8], pos: usize) -> (res: Result<(u64, usize), DecodeError>)
    requires
        pos <= bytes@.len(),
    ensures
        match parse_u64(bytes@.skip(pos as int)) {
            Ok((value, rest)) => res matches Ok((x, next)) && x == value && next <= bytes@.len()
                && rest == bytes@.skip(next as int),
            Err(e) => res == Err::<(u64, usize), DecodeError>(e),
        },
{
    reveal(parse_u64);
    if bytes.len() - pos < 8 {
        return Err(DecodeError::Truncated);
    }
    let x = u64_from_le_bytes(slice_subrange(bytes, pos, pos + 8));
    assert(bytes@.skip(pos as int).take(8) =~= bytes@.subrange(pos as int, pos + 8));
    assert(bytes@.skip(pos as int).skip(8) =~= bytes@.skip(pos + 8));
    Ok((x, pos + 8))
}

/// Reads a text at `pos`; gives the text and the position behind it.
fn read_text(bytes: &[u8], pos: usize) -> (res: Result<(String, usize), DecodeError>)
    requires
        pos <= bytes@.len(),
    ensures
        match parse_text(bytes@.skip(pos as int)) {
            Ok((value, rest)) => res matches Ok((x, next)) && x@ == value && next <= bytes@.len()
                && rest == bytes@.skip(next as int),
            Err(e) => res matches Err(x) && x == e,
        },
{
    reveal(parse_text);
    let (n, start) = match read_u64(bytes, pos) {
        Ok(pair) => pair,
        Err(e) => {
            return Err(e);
        },
    };
    if ((bytes.len() - start) as u64) < n {
        return Err(DecodeError::Truncated);
    }
    let end = start + n as usize;
    let raw = slice_to_vec(slice_subrange(bytes, start, end));
    assert(bytes@.skip(start as int).take(n as int) =~= bytes@.subrange(start as int, end as int));
    assert(bytes@.skip(start as int).skip(n as int) =~= bytes@.skip(end as int));
    match text_from_utf8(raw) {
        Some(text) => {
            proof {
                encode_utf8_decode_utf8(text@);
            }
            Ok((text, end))
        },
        None => Err(DecodeError::BadText),
    }
}

/// Reads a last-use time at `pos`.
fn read_last_used(bytes: &[u8], pos: usize) -> (res: Result<(Option<u64>, usize), DecodeError>)
    requires
        pos <= bytes@.len(),
    ensures
        match parse_last_used(bytes@.skip(pos as int)) {
            Ok((value, rest)) => res matches Ok((x, next)) && x == value && next <= bytes@.len()
                && rest == bytes@.skip(next as int),
            Err(e) => res == Err::<(Option<u64>, usize), DecodeError>(e),
        },
{
    reveal(parse_last_used);
    if bytes.len() - pos < 1 {
        return Err(DecodeError::Truncated);
    }
    let tag = bytes[pos];
    assert(bytes@.skip(pos as int)[0] == tag);
    assert(bytes@.skip(pos as int).skip(1) =~= bytes@.skip(pos + 1));
    if tag == 0 {
        Ok((None, pos + 1))
    } else if tag == 1 {
        match read_u64(bytes, pos + 1) {
            Ok((t, next)) => Ok((Some(t), next)),
            Err(e) => Err(e),
        }
    } else {
        Err(DecodeError::BadTag)
    }
}

/// Reads one record at `pos`.
fn read_record(bytes: &[u8], pos: usize) -> (res: Result<(AppRecord, usize), DecodeError>)
    requires
        pos <= bytes@.len(),
    ensures
        match parse_record(bytes@.skip(pos as int)) {
            Ok((value, rest)) => res matches Ok((x, next)) && x@ == value && next <= bytes@.len()
                && rest == bytes@.skip(next as int),
            Err(e) => res matches Err(x) && x == e,
        },
{
    reveal(parse_record);
    let (id, pos) = match read_u64(bytes, pos) {
        Ok(pair) => pair,
        Err(e) => {
            return Err(e);
        },
    };
    let (usage_count, pos) = match read_u64(bytes, pos) {
        Ok(pair) => pair,
        Err(e) => {
            return Err(e);
        },
    };
    let (last_used, pos) = match read_last_used(bytes, pos) {
        Ok(pair) => pair,
        Err(e) => {
            return Err(e);
        },
    };
    let (name, pos) = match read_text(bytes, pos) {
        Ok(pair) => pair,
        Err(e) => {
            return Err(e);
        },
    };
    let (command, pos) = match read_text(bytes, pos) {
        Ok(pair) => pair,
        Err(e) => {
            return Err(e);
        },
    };
    let (icon, pos) = match read_text(bytes, pos) {
        Ok(pair) => pair,
        Err(e) => {
            return Err(e);
        },
    };
    let (source_path, pos) = match read_text(bytes, pos) {
        Ok(pair) => pair,
        Err(e) => {
            return Err(e);
        },
    };
    let record = AppRecord {
        id,
        name,
        launch: ExecutionSpec { command, icon },
        usage_count,
        last_used,
        source_path,
    };
    Ok((record, pos))
}

/// Reads `count` records from `pos` on.
fn read_records(bytes: &[u8], pos: usize, count: u64) -> (res: Result<
    (Vec<AppRecord>, usize),
    DecodeError,
>)
    requires
        pos <= bytes@.len(),
    ensures
        match parse_records(bytes@.skip(pos as int), count as nat) {
            Ok((value, rest)) => res matches Ok((x, next)) && x.deep_view() == value && next
                <= bytes@.len() && rest == bytes@.skip(next as int),
            Err(e) => res matches Err(x) && x == e,
        },
{
    let ghost start = bytes@.skip(pos as int);
    let mut records: Vec<AppRecord> = Vec::new();
    let mut at: usize = pos;
    let mut i: u64 = 0;
    assert(records.deep_view() =~= Seq::<AppRecordView>::empty());
    assert forall|more: Seq<AppRecordView>| Seq::<AppRecordView>::empty() + more =~= more by {}
    while i < count
        invariant
            i <= count,
            at <= bytes@.len(),
            start == bytes@.skip(pos as int),
            match parse_records(bytes@.skip(at as int), (count - i) as nat) {
                Ok((more, rest)) => parse_records(start, count as nat) == Ok::<
                    (Seq<AppRecordView>, Seq<u8>),
                    DecodeError,
                >((records.deep_view() + more, rest)),
                Err(e) => parse_records(start, count as nat) == Err::<
                    (Seq<AppRecordView>, Seq<u8>),
                    DecodeError,
                >(e),
            },
        decreases count - i,
    {
        let ghost done = records.deep_view();
        let (record, next) = match read_record(bytes, at) {
            Ok(pair) => pair,
            Err(e) => {
                return Err(e);
            },
        };
        proof {
            match parse_records(bytes@.skip(next as int), (count - i - 1) as nat) {
                Ok((more, rest)) => {
                    assert(done + (seq![record@] + more) =~= done.push(record@) + more);
                },
                Err(e) => {},
            }
        }
        records.push(record);
        assert(records.deep_view() =~= done.push(record@));
        at = next;
        i += 1;
    }
    assert(records.deep_view() + Seq::<AppRecordView>::empty() =~= records.deep_view());
    Ok((records, at))
}

/// Reads what follows magic number and version, and builds the store.
fn read_body(bytes: &[u8], pos: usize, search_paths: Vec<String>) -> (res: Result<
    IndexStore,
    DecodeError,
>)
    requires
        pos <= bytes@.len(),
    ensures
        match parse_body(bytes@.skip(pos as int), search_paths.deep_view()) {
            Ok(value) => res matches Ok(store) && store@ == value,
            Err(e) => res matches Err(x) && x == e,
        },
{
    let (next_id, pos) = match read_u64(bytes, pos) {
        Ok(pair) => pair,
        Err(e) => {
            return Err(e);
        },
    };
    let (count, pos) = match read_u64(bytes, pos) {
        Ok(pair) => pair,
        Err(e) => {
            return Err(e);
        },
    };
    let (records, pos) = match read_records(bytes, pos, count) {
        Ok(pair) => pair,
        Err(e) => {
            return Err(e);
        },
    };
    if pos != bytes.len() {
        return Err(DecodeError::TrailingBytes);
    }
    match IndexStore::from_parts(records, search_paths, next_id) {
        Some(store) => Ok(store),
        None => Err(DecodeError::InvalidStore),
    }
}

impl IndexStore {
    /// Writes the store down as bytes. Reading them back with the same
    /// search directories gives the store again.
    pub fn serialize(&self) -> (bytes: Vec<u8>)
        ensures
            bytes@ == encode_store(self@),
            store_fits(self@),
            decode_store(bytes@, self@.search_paths) == Ok::<IndexStoreView, DecodeError>(self@),
    {
        self.validity();
        let records = self.records();
        let mut out: Vec<u8> = Vec::new();
        out.push(0x50u8);
        out.push(0x4bu8);
        out.push(0x4cu8);
        out.push(0x49u8);
        assert(out@ =~= magic());
        let mut version = u32_to_le_bytes(FORMAT_VERSION);
        out.append(&mut version);
        put_u64(&mut out, self.next_id());
        put_u64(&mut out, records.len() as u64);
        let ghost head = out@;
        let ghost rv = records.deep_view();
        let mut i: usize = 0;
        assert(rv.take(0) =~= Seq::<AppRecordView>::empty());
        assert(head + encode_records(rv.take(0)) =~= head);
        while i < records.len()
            invariant
                i <= records.len(),
                rv == records.deep_view(),
                out@ == head + encode_records(rv.take(i as int)),
                forall|j: int| 0 <= j < i ==> record_fits(#[trigger] rv[j]),
            decreases records.len() - i,
        {
            put_record(&mut out, &records[i]);
            proof {
                assert(rv[i as int] == records[i as int]@);
                assert(rv.take(i + 1) =~= rv.take(i as int).push(rv[i as int]));
                lemma_encode_records_push(rv.take(i as int), rv[i as int]);
                assert(out@ =~= head + encode_records(rv.take(i + 1)));
            }
            i += 1;
        }
        proof {
            assert(rv.take(i as int) =~= rv);
            lemma_round_trip(self@);
        }
        out
    }

    /// Reads a store from bytes. `search_paths` become the search
    /// directories of the store. Anything but a complete, well-formed file
    /// of the current version whose records make up a valid store is
    /// refused, with the first fault found.
    pub fn deserialize(bytes: &[u8], search_paths: Vec<String>) -> (res: Result<
        IndexStore,
        DecodeError,
    >)
        ensures
            match decode_store(bytes@, search_paths.deep_view()) {
                Ok(value) => res matches Ok(store) && store@ == value,
                Err(e) => res matches Err(x) && x == e,
            },
    {
        if bytes.len() < 4 {
            return Err(DecodeError::Truncated);
        }
        if bytes[0] != 0x50 || bytes[1] != 0x4b || bytes[2] != 0x4c || bytes[3] != 0x49 {
            assert(bytes@.take(4)[0] == bytes@[0]);
            assert(bytes@.take(4)[1] == bytes@[1]);
            assert(bytes@.take(4)[2] == bytes@[2]);
            assert(bytes@.take(4)[3] == bytes@[3]);
            return Err(DecodeError::BadMagic);
        }
        assert(bytes@.take(4) =~= magic());
        if bytes.len() < 8 {
            return Err(DecodeError::Truncated);
        }
        let version = u32_from_le_bytes(slice_subrange(bytes, 4, 8));
        if version != FORMAT_VERSION {
            return Err(DecodeError::UnsupportedVersion);
        }
        read_body(bytes, 8, search_paths)
    }
}

} // verus!
