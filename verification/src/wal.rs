//! The write-ahead log format.
//!
//! A log is a sequence of records. A record is a type byte (1 for a put, 2
//! for a delete), the key's length as a little-endian `u32`, the key's UTF-8
//! bytes, for a put also the value's length and bytes, and last the CRC-32 of
//! everything before it in the record, little-endian.
//!
//! Reading stops without error at a record cut short by the end of the log
//! (a crash in the middle of an append), and fails on a record that is
//! complete but wrong.
use vstd::bytes::{
    lemma_auto_spec_u32_to_from_le_bytes,
    spec_u32_from_le_bytes,
    spec_u32_to_le_bytes,
    u32_from_le_bytes,
    u32_to_le_bytes,
};
use vstd::prelude::*;
use vstd::string::StringExecFns;
use vstd::slice::{slice_subrange, slice_to_vec};
use vstd::utf8::{decode_utf8, encode_utf8, encode_utf8_decode_utf8, encode_utf8_valid_utf8, valid_utf8};

verus! {

broadcast use vstd::string::group_string_axioms;

/// One change recorded in the log.
#[derive(Debug)]
pub enum WalEntry {
    Put(String, String),
    Del(String),
}

/// A log entry over the characters of its key and value.
pub enum EntryView {
    Put(Seq<char>, Seq<char>),
    Del(Seq<char>),
}

impl View for WalEntry {
    type V = EntryView;

    open spec fn view(&self) -> EntryView {
        match self {
            WalEntry::Put(k, v) => EntryView::Put(k@, v@),
            WalEntry::Del(k) => EntryView::Del(k@),
        }
    }
}

/// Which length field of a record is at fault.
#[derive(Debug, Clone, Copy, PartialEq, Eq, Structural)]
pub enum RecordField {
    Key,
    Value,
}

/// Why a complete record is refused.
#[derive(Debug, Clone, Copy, PartialEq, Eq, Structural)]
pub enum WalError {
    /// The type byte is neither 1 nor 2.
    UnknownRecordType(u8),
    /// A length field is larger than `MAX_RECORD_LEN`.
    RecordTooLong { field: RecordField, len: u32 },
    /// The key or the value is not UTF-8.
    InvalidUtf8,
    /// The stored checksum differs from the one computed over the record.
    ChecksumMismatch { expected: u32, found: u32 },
}

/// The digit for `d` (below 16), lower-case past 9.
pub open spec fn hex_digit(d: nat) -> char {
    if d < 10 {
        (48 + d) as char
    } else {
        (87 + d) as char
    }
}

/// The decimal digits of `n`, without leading zeros.
pub open spec fn decimal(n: nat) -> Seq<char>
    decreases n,
{
    if n < 10 {
        seq![hex_digit(n)]
    } else {
        decimal(n / 10).push(hex_digit(n % 10))
    }
}

/// The last `count` hexadecimal digits of `x`, zero-padded.
pub open spec fn hex_digits(x: nat, count: nat) -> Seq<char>
    decreases count,
{
    if count == 0 {
        seq![]
    } else {
        hex_digits(x / 16, (count - 1) as nat).push(hex_digit(x % 16))
    }
}

/// `x` as `{:#010x}` writes it: `0x` and eight hexadecimal digits.
pub open spec fn hex_u32(x: u32) -> Seq<char> {
    "0x"@ + hex_digits(x as nat, 8)
}

/// The name of a length field in messages.
pub open spec fn field_name(f: RecordField) -> Seq<char> {
    match f {
        RecordField::Key => "key"@,
        RecordField::Value => "value"@,
    }
}

/// The text of a refused record, as the log reports it.
pub open spec fn wal_error_message(e: WalError) -> Seq<char> {
    match e {
        WalError::UnknownRecordType(v) => "unknown record type: "@ + decimal(v as nat),
        WalError::RecordTooLong { field, len } => "WAL record "@ + field_name(field) + " length "@
            + decimal(len as nat) + " exceeds maximum of "@ + decimal(MAX_RECORD_LEN as nat)
            + " bytes; the log file may be corrupted"@,
        WalError::InvalidUtf8 => "invalid UTF-8"@,
        WalError::ChecksumMismatch { expected, found } => "WAL checksum mismatch (expected "@
            + hex_u32(expected) + ", found "@ + hex_u32(found)
            + "); the log file may be corrupted"@,
    }
}

/// The one-character string of digit `d`.
fn digit_str(d: u32) -> (s: &'static str)
    requires
        d < 16,
    ensures
        s@ == seq![hex_digit(d as nat)],
{
    match d {
        0 => { proof { reveal_strlit("0"); } "0" },
        1 => { proof { reveal_strlit("1"); } "1" },
        2 => { proof { reveal_strlit("2"); } "2" },
        3 => { proof { reveal_strlit("3"); } "3" },
        4 => { proof { reveal_strlit("4"); } "4" },
        5 => { proof { reveal_strlit("5"); } "5" },
        6 => { proof { reveal_strlit("6"); } "6" },
        7 => { proof { reveal_strlit("7"); } "7" },
        8 => { proof { reveal_strlit("8"); } "8" },
        9 => { proof { reveal_strlit("9"); } "9" },
        10 => { proof { reveal_strlit("a"); } "a" },
        11 => { proof { reveal_strlit("b"); } "b" },
        12 => { proof { reveal_strlit("c"); } "c" },
        13 => { proof { reveal_strlit("d"); } "d" },
        14 => { proof { reveal_strlit("e"); } "e" },
        _ => { proof { reveal_strlit("f"); } "f" },
    }
}

/// Appends the decimal digits of `n` to `out`.
fn push_decimal(out: &mut String, n: u32)
    ensures
        final(out)@ == old(out)@ + decimal(n as nat),
    decreases n,
{
    if n >= 10 {
        push_decimal(out, n / 10);
    }
    out.append(digit_str(n % 10));
}

/// Appends the last `count` hexadecimal digits of `x` to `out`, zero-padded.
fn push_hex(out: &mut String, x: u32, count: u32)
    ensures
        final(out)@ == old(out)@ + hex_digits(x as nat, count as nat),
    decreases count,
{
    if count > 0 {
        push_hex(out, x / 16, count - 1);
        out.append(digit_str(x % 16));
    } else {
        assert(old(out)@ + hex_digits(x as nat, 0) =~= old(out)@);
    }
}

/// Appends `x` to `out` as `{:#010x}` writes it.
fn push_hex_u32(out: &mut String, x: u32)
    ensures
        final(out)@ == old(out)@ + hex_u32(x),
{
    out.append("0x");
    push_hex(out, x, 8);
    assert(final(out)@ =~= old(out)@ + hex_u32(x));
}

impl WalError {
    /// The text of this error, as the log reports it.
    pub fn message(&self) -> (m: String)
        ensures
            m@ == wal_error_message(*self),
    {
        match *self {
            WalError::UnknownRecordType(v) => {
                let mut m = String::from_str("unknown record type: ");
                push_decimal(&mut m, v as u32);
                m
            },
            WalError::RecordTooLong { field, len } => {
                let mut m = String::from_str("WAL record ");
                match field {
                    RecordField::Key => m.append("key"),
                    RecordField::Value => m.append("value"),
                }
                m.append(" length ");
                push_decimal(&mut m, len);
                m.append(" exceeds maximum of ");
                push_decimal(&mut m, MAX_RECORD_LEN);
                m.append(" bytes; the log file may be corrupted");
                m
            },
            WalError::InvalidUtf8 => String::from_str("invalid UTF-8"),
            WalError::ChecksumMismatch { expected, found } => {
                let mut m = String::from_str("WAL checksum mismatch (expected ");
                push_hex_u32(&mut m, expected);
                m.append(", found ");
                push_hex_u32(&mut m, found);
                m.append("); the log file may be corrupted");
                m
            },
        }
    }
}

/// The largest key or value a record may announce: 64 MiB.
pub const MAX_RECORD_LEN: u32 = 64 * 1024 * 1024;

/// The type of a record.
pub enum RecordType {
    Put,
    Del,
}

impl RecordType {
    /// The type byte of this record type.
    pub open spec fn spec_byte(self) -> u8 {
        match self {
            RecordType::Put => 1,
            RecordType::Del => 2,
        }
    }

    /// The record type that `value` stands for.
    pub fn try_from(value: u8) -> (r: Result<RecordType, WalError>)
        ensures
            value == 1 ==> r matches Ok(RecordType::Put),
            value == 2 ==> r matches Ok(RecordType::Del),
            value != 1 && value != 2 ==> r == Err::<RecordType, WalError>(
                WalError::UnknownRecordType(value),
            ),
    {
        if value == 1 {
            Ok(RecordType::Put)
        } else if value == 2 {
            Ok(RecordType::Del)
        } else {
            Err(WalError::UnknownRecordType(value))
        }
    }
}

/// The CRC-32 (IEEE) checksum of `data`, as `crc32fast::hash` computes it.
pub uninterp spec fn crc32(data: Seq<u8>) -> u32;

/// `crc32fast::hash`: its result is the CRC-32 of the bytes, named `crc32`;
/// nothing else is claimed of the value.
#[verifier::external_body]
fn checksum(data: &[u8]) -> (c: u32)
    ensures
        c == crc32(data@),
{
    crc32fast::hash(data)
}

/// `String::from_utf8` (std), with the error dropped: a string exactly when the
/// bytes are valid UTF-8, and then the string whose UTF-8 encoding they are.
#[verifier::external_body]
fn string_from_utf8(bytes: Vec<u8>) -> (r: Option<String>)
    ensures
        r is Some <==> valid_utf8(bytes@),
        r matches Some(s) ==> s@ == decode_utf8(bytes@),
{
    String::from_utf8(bytes).ok()
}

// ---------------------------------------------------------------------------
// The format
/// `x` as four little-endian bytes.
pub open spec fn le32(x: u32) -> Seq<u8> {
    spec_u32_to_le_bytes(x)
}

/// The `u32` stored little-endian at `pos` in `b`.
pub open spec fn u32_at(b: Seq<u8>, pos: int) -> u32 {
    spec_u32_from_le_bytes(b.subrange(pos, pos + 4))
}

/// The length field written before a key or value: its UTF-8 length, cut to 32 bits.
pub open spec fn len_field(s: Seq<char>) -> Seq<u8> {
    le32(encode_utf8(s).len() as u32)
}

/// A record without its checksum.
pub open spec fn record_body(e: EntryView) -> Seq<u8> {
    match e {
        EntryView::Put(k, v) => seq![1u8] + len_field(k) + encode_utf8(k) + len_field(v)
            + encode_utf8(v),
        EntryView::Del(k) => seq![2u8] + len_field(k) + encode_utf8(k),
    }
}

/// The bytes of the record for `e`.
pub open spec fn encode_record(e: EntryView) -> Seq<u8> {
    record_body(e) + le32(crc32(record_body(e)))
}

/// The log that holds the records of `es`, in order.
pub open spec fn encode_log(es: Seq<EntryView>) -> Seq<u8>
    decreases es.len(),
{
    if es.len() == 0 {
        seq![]
    } else {
        encode_record(es[0]) + encode_log(es.drop_first())
    }
}

/// The key and value of `e` are within the lengths a record may announce.
pub open spec fn fits(e: EntryView) -> bool {
    match e {
        EntryView::Put(k, v) => encode_utf8(k).len() <= MAX_RECORD_LEN && encode_utf8(v).len()
            <= MAX_RECORD_LEN,
        EntryView::Del(k) => encode_utf8(k).len() <= MAX_RECORD_LEN,
    }
}

/// The end of a record whose entry is `e` and whose body ends at `end`: the
/// checksum after the body must be there and must match.
pub open spec fn checked_entry(b: Seq<u8>, end: int, e: EntryView) -> Result<
    Option<(EntryView, nat)>,
    WalError,
> {
    if b.len() < end + 4 {
        Ok(None)
    } else {
        let stored = u32_at(b, end);
        let computed = crc32(b.take(end));
        if stored != computed {
            Err(WalError::ChecksumMismatch { expected: computed, found: stored })
        } else {
            Ok(Some((e, (end + 4) as nat)))
        }
    }
}

/// Reading one record from the front of `b`: `Ok(None)` where the bytes end
/// before the record does, else the entry and the number of bytes it took.
/// The checks come in the order in which the record is read.
pub open spec fn spec_read_entry(b: Seq<u8>) -> Result<Option<(EntryView, nat)>, WalError> {
    if b.len() < 1 {
        Ok(None)
    } else if b[0] != 1 && b[0] != 2 {
        Err(WalError::UnknownRecordType(b[0]))
    } else if b.len() < 5 {
        Ok(None)
    } else if u32_at(b, 1) > MAX_RECORD_LEN {
        Err(WalError::RecordTooLong { field: RecordField::Key, len: u32_at(b, 1) })
    } else {
        let kend = 5 + u32_at(b, 1);
        let kb = b.subrange(5, kend);
        if b.len() < kend {
            Ok(None)
        } else if b[0] == 1 {
            if b.len() < kend + 4 {
                Ok(None)
            } else if u32_at(b, kend) > MAX_RECORD_LEN {
                Err(WalError::RecordTooLong { field: RecordField::Value, len: u32_at(b, kend) })
            } else {
                let vend = kend + 4 + u32_at(b, kend);
                let vb = b.subrange(kend + 4, vend);
                if b.len() < vend {
                    Ok(None)
                } else if !valid_utf8(kb) || !valid_utf8(vb) {
                    Err(WalError::InvalidUtf8)
                } else {
                    checked_entry(b, vend, EntryView::Put(decode_utf8(kb), decode_utf8(vb)))
                }
            }
        } else {
            if !valid_utf8(kb) {
                Err(WalError::InvalidUtf8)
            } else {
                checked_entry(b, kend, EntryView::Del(decode_utf8(kb)))
            }
        }
    }
}

/// A record that is read takes between 9 bytes and all of what is there.
pub proof fn lemma_read_entry_consumes(b: Seq<u8>)
    ensures
        spec_read_entry(b) matches Ok(Some((_, n))) ==> 9 <= n <= b.len(),
{
}

/// Reading a whole log: the entries of the records read, in order, and how
/// the reading ended: `Ok` at the end of the log or at a record cut short by
/// it, else the error of the first complete record that is refused.
pub open spec fn spec_replay(b: Seq<u8>) -> (Seq<EntryView>, Result<(), WalError>)
    decreases b.len(),
{
    match spec_read_entry(b) {
        Err(e) => (seq![], Err(e)),
        Ok(None) => (seq![], Ok(())),
        Ok(Some((e, n))) => {
            proof {
                lemma_read_entry_consumes(b);
            }
            let rest = spec_replay(b.skip(n as int));
            (seq![e] + rest.0, rest.1)
        },
    }
}

/// The view of a `read_entry` result.
pub open spec fn read_view(r: Result<Option<(WalEntry, usize)>, WalError>) -> Result<
    Option<(EntryView, nat)>,
    WalError,
> {
    match r {
        Ok(Some((e, n))) => Ok(Some((e@, n as nat))),
        Ok(None) => Ok(None),
        Err(x) => Err(x),
    }
}

/// The views of a sequence of entries.
pub open spec fn entries_view(es: Seq<WalEntry>) -> Seq<EntryView> {
    es.map_values(|e: WalEntry| e@)
}

// ---------------------------------------------------------------------------
// Writing
/// Appends to `out` the four little-endian bytes of `x`.
fn push_u32(out: &mut Vec<u8>, x: u32)
    ensures
        final(out)@ == old(out)@ + le32(x),
{
    let mut bytes = u32_to_le_bytes(x);
    out.append(&mut bytes);
}

/// Appends to `out` the length field and the UTF-8 bytes of `s`.
fn push_str(out: &mut Vec<u8>, s: &str)
    ensures
        final(out)@ == old(out)@ + len_field(s@) + encode_utf8(s@),
{
    let bytes = s.as_bytes();
    push_u32(out, bytes.len() as u32);
    let mut v = slice_to_vec(bytes);
    out.append(&mut v);
}

/// Appends to `out` the checksum of `body` and then `body` itself with it.
fn push_checked(out: &mut Vec<u8>, body: Vec<u8>)
    ensures
        final(out)@ == old(out)@ + body@ + le32(crc32(body@)),
{
    let mut body = body;
    let crc = checksum(body.as_slice());
    push_u32(&mut body, crc);
    out.append(&mut body);
}

/// Appends the record of a put of `value` under `key` to `writer`.
pub fn write_set(writer: &mut Vec<u8>, key: &str, value: &str)
    ensures
        final(writer)@ == old(writer)@ + encode_record(EntryView::Put(key@, value@)),
{
    let mut body: Vec<u8> = Vec::new();
    body.push(1u8);
    push_str(&mut body, key);
    push_str(&mut body, value);
    assert(body@ =~= record_body(EntryView::Put(key@, value@)));
    push_checked(writer, body);
}

/// Appends the record of a delete of `key` to `writer`.
pub fn write_del(writer: &mut Vec<u8>, key: &str)
    ensures
        final(writer)@ == old(writer)@ + encode_record(EntryView::Del(key@)),
{
    let mut body: Vec<u8> = Vec::new();
    body.push(2u8);
    push_str(&mut body, key);
    assert(body@ =~= record_body(EntryView::Del(key@)));
    push_checked(writer, body);
}

/// The record of `entry`.
pub fn encode_entry(entry: &WalEntry) -> (bytes: Vec<u8>)
    ensures
        bytes@ == encode_record(entry@),
{
    let mut out: Vec<u8> = Vec::new();
    match entry {
        WalEntry::Put(k, v) => write_set(&mut out, k.as_str(), v.as_str()),
        WalEntry::Del(k) => write_del(&mut out, k.as_str()),
    }
    assert(out@ =~= encode_record(entry@));
    out
}

/// The log that holds a put record for each pair, in order: what the log is
/// rewritten to when it is compacted.
pub fn compact_log(entries: &Vec<(String, String)>) -> (bytes: Vec<u8>)
    ensures
        bytes@ == encode_log(entries@.map_values(|p: (String, String)| EntryView::Put(p.0@, p.1@))),
{
    let ghost es = entries@.map_values(|p: (String, String)| EntryView::Put(p.0@, p.1@));
    let mut out: Vec<u8> = Vec::new();
    let mut i: usize = 0;
    while i < entries.len()
        invariant
            i <= entries.len(),
            es == entries@.map_values(|p: (String, String)| EntryView::Put(p.0@, p.1@)),
            out@ == encode_log(es.take(i as int)),
        decreases entries.len() - i,
    {
        write_set(&mut out, entries[i].0.as_str(), entries[i].1.as_str());
        proof {
            lemma_encode_log_push(es.take(i as int), es[i as int]);
            assert(es.take(i as int).push(es[i as int]) =~= es.take(i + 1));
        }
        i += 1;
    }
    assert(es.take(entries.len() as int) =~= es);
    out
}

// ---------------------------------------------------------------------------
// Reading
/// The `len` bytes at `pos` of `reader`, or `None` where it ends before them.
pub fn try_read_exact(reader: &[u8], pos: usize, len: usize) -> (r: Option<&[u8]>)
    requires
        pos <= reader@.len(),
    ensures
        r is Some <==> pos + len <= reader@.len(),
        r matches Some(s) ==> s@ == reader@.subrange(pos as int, pos + len),
{
    if len <= reader.len() - pos {
        Some(slice_subrange(reader, pos, pos + len))
    } else {
        None
    }
}

/// The little-endian `u32` at `pos` of `reader`, or `None` where it ends before it.
pub fn read_u32(reader: &[u8], pos: usize) -> (r: Option<u32>)
    requires
        pos <= reader@.len(),
    ensures
        r is Some <==> pos + 4 <= reader@.len(),
        r matches Some(x) ==> x == u32_at(reader@, pos as int),
{
    match try_read_exact(reader, pos, 4) {
        Some(bytes) => Some(u32_from_le_bytes(bytes)),
        None => None,
    }
}

/// Refuses a length field over `MAX_RECORD_LEN`.
pub fn check_record_len(len: u32, field: RecordField) -> (r: Result<(), WalError>)
    ensures
        len <= MAX_RECORD_LEN ==> r is Ok,
        len > MAX_RECORD_LEN ==> r == Err::<(), WalError>(WalError::RecordTooLong { field, len }),
{
    if len > MAX_RECORD_LEN {
        return Err(WalError::RecordTooLong { field, len });
    }
    Ok(())
}

/// Reads the checksum after a record body that ends at `end` and compares it
/// with the one computed over the body.
fn read_checked(reader: &[u8], end: usize, entry: WalEntry) -> (r: Result<
    Option<(WalEntry, usize)>,
    WalError,
>)
    requires
        end <= reader@.len(),
    ensures
        read_view(r) == checked_entry(reader@, end as int, entry@),
{
    let stored = match read_u32(reader, end) {
        Some(x) => x,
        None => return Ok(None),
    };
    assert(reader@.len() == reader.len());
    let computed = checksum(slice_subrange(reader, 0, end));
    assert(reader@.subrange(0, end as int) =~= reader@.take(end as int));
    verify_checksum(stored, computed)?;
    Ok(Some((entry, end + 4)))
}

/// Compares the checksum stored in a record with the one computed over it.
pub fn verify_checksum(stored: u32, computed: u32) -> (r: Result<(), WalError>)
    ensures
        stored == computed ==> r is Ok,
        stored != computed ==> r == Err::<(), WalError>(
            WalError::ChecksumMismatch { expected: computed, found: stored },
        ),
{
    if stored != computed {
        return Err(WalError::ChecksumMismatch { expected: computed, found: stored });
    }
    Ok(())
}

/// Reads one record from the front of `reader`: `Ok(None)` where it ends
/// before the record does, else the entry and the number of bytes it took.
pub fn read_entry(reader: &[u8]) -> (r: Result<Option<(WalEntry, usize)>, WalError>)
    ensures
        read_view(r) == spec_read_entry(reader@),
{
    let record_type = match try_read_exact(reader, 0, 1) {
        Some(b) => b[0],
        None => return Ok(None),
    };
    let record_type = RecordType::try_from(record_type)?;
    let key_len = match read_u32(reader, 1) {
        Some(x) => x,
        None => return Ok(None),
    };
    check_record_len(key_len, RecordField::Key)?;
    let kend: usize = 5 + key_len as usize;
    let key = match try_read_exact(reader, 5, key_len as usize) {
        Some(k) => slice_to_vec(k),
        None => return Ok(None),
    };
    match record_type {
        RecordType::Put => {
            let value_len = match read_u32(reader, kend) {
                Some(x) => x,
                None => return Ok(None),
            };
            check_record_len(value_len, RecordField::Value)?;
            let vend: usize = kend + 4 + value_len as usize;
            let value = match try_read_exact(reader, kend + 4, value_len as usize) {
                Some(v) => slice_to_vec(v),
                None => return Ok(None),
            };
            let key = match string_from_utf8(key) {
                Some(s) => s,
                None => return Err(WalError::InvalidUtf8),
            };
            let value = match string_from_utf8(value) {
                Some(s) => s,
                None => return Err(WalError::InvalidUtf8),
            };
            read_checked(reader, vend, WalEntry::Put(key, value))
        },
        RecordType::Del => {
            let key = match string_from_utf8(key) {
                Some(s) => s,
                None => return Err(WalError::InvalidUtf8),
            };
            read_checked(reader, kend, WalEntry::Del(key))
        },
    }
}

/// Reads the records of a whole log, in order: the entries read, and how the
/// reading ended. An error leaves the entries of the records before it.
pub fn replay_entries(log: &[u8]) -> (r: (Vec<WalEntry>, Result<(), WalError>))
    ensures
        (entries_view(r.0@), r.1) == spec_replay(log@),
{
    let mut out: Vec<WalEntry> = Vec::new();
    let mut pos: usize = 0;
    assert(log@.skip(0) =~= log@);
    assert(entries_view(out@) + spec_replay(log@).0 =~= spec_replay(log@).0);
    while pos < log.len()
        invariant
            pos <= log@.len(),
            spec_replay(log@).0 == entries_view(out@) + spec_replay(log@.skip(pos as int)).0,
            spec_replay(log@).1 == spec_replay(log@.skip(pos as int)).1,
        decreases log@.len() - pos,
    {
        let rest = slice_subrange(log, pos, log.len());
        assert(rest@ =~= log@.skip(pos as int));
        proof {
            lemma_read_entry_consumes(rest@);
        }
        match read_entry(rest) {
            Err(x) => {
                assert(entries_view(out@) + seq![] =~= entries_view(out@));
                return (out, Err(x));
            },
            Ok(None) => {
                assert(entries_view(out@) + seq![] =~= entries_view(out@));
                return (out, Ok(()));
            },
            Ok(Some((e, n))) => {
                let ghost before = entries_view(out@);
                let ghost ev = e@;
                let ghost tail = spec_replay(log@.skip(pos + n)).0;
                out.push(e);
                assert(log@.skip(pos as int).skip(n as int) =~= log@.skip(pos + n));
                assert(entries_view(out@) =~= before.push(ev));
                assert(before + (seq![ev] + tail) =~= entries_view(out@) + tail);
                pos = pos + n;
            },
        }
    }
    assert(log@.skip(pos as int) =~= Seq::<u8>::empty());
    assert(entries_view(out@) + seq![] =~= entries_view(out@));
    (out, Ok(()))
}

// ---------------------------------------------------------------------------
// Laws
/// Appending the record of `e` to the log of `es` gives the log of `es` followed by `e`.
pub proof fn lemma_encode_log_push(es: Seq<EntryView>, e: EntryView)
    ensures
        encode_log(es.push(e)) == encode_log(es) + encode_record(e),
    decreases es.len(),
{
    if es.len() == 0 {
        assert(es.push(e).drop_first() =~= Seq::<EntryView>::empty());
        assert(encode_log(Seq::<EntryView>::empty()) == Seq::<u8>::empty());
        assert(encode_log(es.push(e)) =~= encode_record(e));
    } else {
        assert(es.push(e).drop_first() =~= es.drop_first().push(e));
        lemma_encode_log_push(es.drop_first(), e);
        assert(encode_log(es.push(e)) =~= encode_log(es) + encode_record(e));
    }
}

/// A key or value that fits is found again at the place where its record stores it.
proof fn lemma_field_round_trip(s: Seq<char>)
    requires
        encode_utf8(s).len() <= MAX_RECORD_LEN,
    ensures
        spec_u32_from_le_bytes(len_field(s)) == encode_utf8(s).len(),
        len_field(s).len() == 4,
        valid_utf8(encode_utf8(s)),
        decode_utf8(encode_utf8(s)) == s,
{
    lemma_auto_spec_u32_to_from_le_bytes();
    let x = encode_utf8(s).len() as u32;
    assert(x == encode_utf8(s).len());
    assert(spec_u32_to_le_bytes(x).len() == 4);
    encode_utf8_valid_utf8(s);
    encode_utf8_decode_utf8(s);
}

/// Reading the record of an entry that fits, whatever follows it, gives back
/// the entry and the length of the record.
pub proof fn lemma_read_encoded_record(e: EntryView, rest: Seq<u8>)
    requires
        fits(e),
    ensures
        spec_read_entry(encode_record(e) + rest) == Ok::<Option<(EntryView, nat)>, WalError>(
            Some((e, encode_record(e).len())),
        ),
{
    lemma_auto_spec_u32_to_from_le_bytes();
    let body = record_body(e);
    let b = encode_record(e) + rest;
    match e {
        EntryView::Put(k, v) => {
            lemma_field_round_trip(k);
            lemma_field_round_trip(v);
            let kl = encode_utf8(k).len() as int;
            let vl = encode_utf8(v).len() as int;
            let kend = 5 + kl;
            let vend = kend + 4 + vl;
            assert(b.subrange(1, 5) =~= len_field(k));
            assert(u32_at(b, 1) == kl);
            assert(b.subrange(5, kend) =~= encode_utf8(k));
            assert(b.subrange(kend, kend + 4) =~= len_field(v));
            assert(u32_at(b, kend) == vl);
            assert(b.subrange(kend + 4, vend) =~= encode_utf8(v));
            assert(body.len() == vend);
            assert(b.take(vend) =~= body);
            assert(b.subrange(vend, vend + 4) =~= le32(crc32(body)));
            assert(u32_at(b, vend) == crc32(body));
        },
        EntryView::Del(k) => {
            lemma_field_round_trip(k);
            let kl = encode_utf8(k).len() as int;
            let kend = 5 + kl;
            assert(b.subrange(1, 5) =~= len_field(k));
            assert(u32_at(b, 1) == kl);
            assert(b.subrange(5, kend) =~= encode_utf8(k));
            assert(body.len() == kend);
            assert(b.take(kend) =~= body);
            assert(b.subrange(kend, kend + 4) =~= le32(crc32(body)));
            assert(u32_at(b, kend) == crc32(body));
        },
    }
}

/// Reading a record of an entry that fits, cut short anywhere before its end,
/// gives `Ok(None)`: the record is taken for one that a crash left unfinished.
pub proof fn lemma_read_truncated_record(e: EntryView, len: int)
    requires
        fits(e),
        0 <= len < encode_record(e).len(),
    ensures
        spec_read_entry(encode_record(e).take(len)) == Ok::<Option<(EntryView, nat)>, WalError>(
            None,
        ),
{
    lemma_auto_spec_u32_to_from_le_bytes();
    let r = encode_record(e);
    let b = r.take(len);
    match e {
        EntryView::Put(k, v) => {
            lemma_field_round_trip(k);
            lemma_field_round_trip(v);
            let kl = encode_utf8(k).len() as int;
            let vl = encode_utf8(v).len() as int;
            let kend = 5 + kl;
            let vend = kend + 4 + vl;
            if len >= 5 {
                assert(b.subrange(1, 5) =~= len_field(k));
                assert(u32_at(b, 1) == kl);
            }
            if len >= kend {
                assert(b.subrange(5, kend) =~= encode_utf8(k));
            }
            if len >= kend + 4 {
                assert(b.subrange(kend, kend + 4) =~= len_field(v));
                assert(u32_at(b, kend) == vl);
            }
            if len >= vend {
                assert(b.subrange(kend + 4, vend) =~= encode_utf8(v));
            }
        },
        EntryView::Del(k) => {
            lemma_field_round_trip(k);
            let kl = encode_utf8(k).len() as int;
            let kend = 5 + kl;
            if len >= 5 {
                assert(b.subrange(1, 5) =~= len_field(k));
                assert(u32_at(b, 1) == kl);
            }
            if len >= kend {
                assert(b.subrange(5, kend) =~= encode_utf8(k));
            }
        },
    }
}

/// Every entry of `es` fits.
pub open spec fn all_fit(es: Seq<EntryView>) -> bool {
    forall|i: int| 0 <= i < es.len() ==> fits(#[trigger] es[i])
}

/// Reading the log of entries that fit, followed by any bytes, gives back
/// exactly those entries, in order, followed by what reading the bytes after
/// them gives, and ends as reading those bytes ends.
pub proof fn lemma_replay_log_then(es: Seq<EntryView>, tail: Seq<u8>)
    requires
        all_fit(es),
    ensures
        spec_replay(encode_log(es) + tail) == (es + spec_replay(tail).0, spec_replay(tail).1),
    decreases es.len(),
{
    if es.len() == 0 {
        assert(encode_log(es) + tail =~= tail);
        assert(es + spec_replay(tail).0 =~= spec_replay(tail).0);
    } else {
        let rest = es.drop_first();
        let r = encode_record(es[0]);
        let after = encode_log(rest) + tail;
        assert(encode_log(es) + tail =~= r + after);
        lemma_read_encoded_record(es[0], after);
        assert((r + after).skip(r.len() as int) =~= after);
        assert(all_fit(rest)) by {
            assert forall|i: int| 0 <= i < rest.len() implies fits(#[trigger] rest[i]) by {
                assert(rest[i] == es[i + 1]);
            }
        }
        lemma_replay_log_then(rest, tail);
        assert(seq![es[0]] + (rest + spec_replay(tail).0) =~= es + spec_replay(tail).0);
    }
}

/// Reading the log of entries that fit gives back exactly those entries, in
/// order, and ends without error: what was appended is what a replay finds.
pub proof fn lemma_replay_encoded_log(es: Seq<EntryView>)
    requires
        all_fit(es),
    ensures
        spec_replay(encode_log(es)) == (es, Ok::<(), WalError>(())),
{
    lemma_replay_log_then(es, Seq::empty());
    assert(encode_log(es) + Seq::<u8>::empty() =~= encode_log(es));
    assert(es + Seq::<EntryView>::empty() =~= es);
}

/// A record cut short at the end of a log is ignored: reading the log gives
/// the entries of the complete records before it and ends without error.
pub proof fn lemma_replay_ignores_truncated_tail(es: Seq<EntryView>, e: EntryView, len: int)
    requires
        all_fit(es),
        fits(e),
        0 <= len < encode_record(e).len(),
    ensures
        spec_replay(encode_log(es) + encode_record(e).take(len)) == (es, Ok::<(), WalError>(())),
{
    lemma_read_truncated_record(e, len);
    lemma_replay_log_then(es, encode_record(e).take(len));
    assert(es + Seq::<EntryView>::empty() =~= es);
}

/// A complete record that is refused ends the reading with its error, after
/// the entries of the good records before it have been read.
pub proof fn lemma_replay_stops_at_refused_record(es: Seq<EntryView>, tail: Seq<u8>)
    requires
        all_fit(es),
        spec_read_entry(tail) is Err,
    ensures
        spec_replay(encode_log(es) + tail) == (es, Err::<(), WalError>(
            spec_read_entry(tail)->Err_0,
        )),
{
    lemma_replay_log_then(es, tail);
    assert(es + Seq::<EntryView>::empty() =~= es);
}

/// An announced length over the limit is refused as soon as it is read,
/// whatever follows it and however short the log is after it.
pub proof fn lemma_oversized_length_refused(b: Seq<u8>)
    requires
        b.len() >= 5,
        b[0] == 1 || b[0] == 2,
        u32_at(b, 1) > MAX_RECORD_LEN,
    ensures
        spec_read_entry(b) == Err::<Option<(EntryView, nat)>, WalError>(
            WalError::RecordTooLong { field: RecordField::Key, len: u32_at(b, 1) },
        ),
        spec_replay(b) == (Seq::<EntryView>::empty(), Err::<(), WalError>(
            WalError::RecordTooLong { field: RecordField::Key, len: u32_at(b, 1) },
        )),
{
}

// ---------------------------------------------------------------------------
// The record format, stated byte by byte
/// The record of a put is: the byte 1, the key's UTF-8 length as four
/// little-endian bytes, the key's UTF-8 bytes, the value's length and bytes
/// likewise, and last the little-endian CRC-32 of all the bytes before it,
/// the value's bytes included.
pub proof fn lemma_put_record_layout(k: Seq<char>, v: Seq<char>)
    ensures
        ({
            let body = seq![1u8] + spec_u32_to_le_bytes(encode_utf8(k).len() as u32) + encode_utf8(k)
                + spec_u32_to_le_bytes(encode_utf8(v).len() as u32) + encode_utf8(v);
            encode_record(EntryView::Put(k, v)) == body + spec_u32_to_le_bytes(crc32(body))
        }),
{
}

/// The record of a delete is: the byte 2, the key's UTF-8 length as four
/// little-endian bytes, the key's UTF-8 bytes, and last the little-endian
/// CRC-32 of all the bytes before it.
pub proof fn lemma_del_record_layout(k: Seq<char>)
    ensures
        ({
            let body = seq![2u8] + spec_u32_to_le_bytes(encode_utf8(k).len() as u32) + encode_utf8(k);
            encode_record(EntryView::Del(k)) == body + spec_u32_to_le_bytes(crc32(body))
        }),
{
}

/// What is read is exactly a record as the writers make it: the bytes taken
/// for an entry are its type byte, length fields and UTF-8 bytes, followed by
/// the CRC-32 of all of them.
pub proof fn lemma_read_only_whole_checked_records(b: Seq<u8>)
    ensures
        spec_read_entry(b) matches Ok(Some((EntryView::Put(k, v), n))) ==> ({
            let body = seq![1u8] + spec_u32_to_le_bytes(encode_utf8(k).len() as u32) + encode_utf8(k)
                + spec_u32_to_le_bytes(encode_utf8(v).len() as u32) + encode_utf8(v);
            n <= b.len() && b.take(n as int) == body + spec_u32_to_le_bytes(crc32(body))
        }),
        spec_read_entry(b) matches Ok(Some((EntryView::Del(k), n))) ==> ({
            let body = seq![2u8] + spec_u32_to_le_bytes(encode_utf8(k).len() as u32) + encode_utf8(k);
            n <= b.len() && b.take(n as int) == body + spec_u32_to_le_bytes(crc32(body))
        }),
{
    lemma_auto_spec_u32_to_from_le_bytes();
    if let Ok(Some((e, n))) = spec_read_entry(b) {
        let kl = u32_at(b, 1) as int;
        let kend = 5 + kl;
        let kb = b.subrange(5, kend);
        vstd::utf8::decode_utf8_encode_utf8(kb);
        assert(b.subrange(1, 5).len() == 4);
        assert(spec_u32_to_le_bytes(u32_at(b, 1)) == b.subrange(1, 5));
        match e {
            EntryView::Put(k, v) => {
                let vl = u32_at(b, kend) as int;
                let vend = kend + 4 + vl;
                let vb = b.subrange(kend + 4, vend);
                vstd::utf8::decode_utf8_encode_utf8(vb);
                assert(b.subrange(kend, kend + 4).len() == 4);
                assert(spec_u32_to_le_bytes(u32_at(b, kend)) == b.subrange(kend, kend + 4));
                assert(b.subrange(vend, vend + 4).len() == 4);
                assert(spec_u32_to_le_bytes(u32_at(b, vend)) == b.subrange(vend, vend + 4));
                let body = seq![1u8] + spec_u32_to_le_bytes(encode_utf8(k).len() as u32)
                    + encode_utf8(k) + spec_u32_to_le_bytes(encode_utf8(v).len() as u32)
                    + encode_utf8(v);
                assert(encode_utf8(k).len() as u32 == u32_at(b, 1));
                assert(encode_utf8(v).len() as u32 == u32_at(b, kend));
                assert(b.take(vend) =~= body);
                assert(b.take(n as int) =~= b.take(vend) + b.subrange(vend, vend + 4));
            },
            EntryView::Del(k) => {
                assert(b.subrange(kend, kend + 4).len() == 4);
                assert(spec_u32_to_le_bytes(u32_at(b, kend)) == b.subrange(kend, kend + 4));
                let body = seq![2u8] + spec_u32_to_le_bytes(encode_utf8(k).len() as u32)
                    + encode_utf8(k);
                assert(encode_utf8(k).len() as u32 == u32_at(b, 1));
                assert(b.take(kend) =~= body);
                assert(b.take(n as int) =~= b.take(kend) + b.subrange(kend, kend + 4));
            },
        }
    }
}

/// A put record that is complete but whose key or value bytes are not UTF-8
/// is refused as invalid UTF-8; it is never taken for one cut short.
pub proof fn lemma_put_with_bad_utf8_refused(b: Seq<u8>)
    requires
        b.len() >= 5,
        b[0] == 1,
        spec_u32_from_le_bytes(b.subrange(1, 5)) <= MAX_RECORD_LEN,
        b.len() >= 9 + spec_u32_from_le_bytes(b.subrange(1, 5)),
        spec_u32_from_le_bytes(
            b.subrange(
                5 + spec_u32_from_le_bytes(b.subrange(1, 5)),
                9 + spec_u32_from_le_bytes(b.subrange(1, 5)),
            ),
        ) <= MAX_RECORD_LEN,
        ({
            let kl = spec_u32_from_le_bytes(b.subrange(1, 5)) as int;
            let vl = spec_u32_from_le_bytes(b.subrange(5 + kl, 9 + kl)) as int;
            &&& b.len() >= 9 + kl + vl
            &&& !valid_utf8(b.subrange(5, 5 + kl)) || !valid_utf8(b.subrange(9 + kl, 9 + kl + vl))
        }),
    ensures
        spec_read_entry(b) == Err::<Option<(EntryView, nat)>, WalError>(WalError::InvalidUtf8),
{
}

/// A delete record that is complete but whose key bytes are not UTF-8 is
/// refused as invalid UTF-8; it is never taken for one cut short.
pub proof fn lemma_del_with_bad_utf8_refused(b: Seq<u8>)
    requires
        b.len() >= 5,
        b[0] == 2,
        spec_u32_from_le_bytes(b.subrange(1, 5)) <= MAX_RECORD_LEN,
        b.len() >= 9 + spec_u32_from_le_bytes(b.subrange(1, 5)),
        !valid_utf8(b.subrange(5, 5 + spec_u32_from_le_bytes(b.subrange(1, 5)))),
    ensures
        spec_read_entry(b) == Err::<Option<(EntryView, nat)>, WalError>(WalError::InvalidUtf8),
{
}

/// A complete put record whose stored checksum is not the CRC-32 of all the
/// bytes before it, the value's bytes included, is refused with both values.
pub proof fn lemma_put_with_bad_checksum_refused(b: Seq<u8>)
    requires
        b.len() >= 5,
        b[0] == 1,
        spec_u32_from_le_bytes(b.subrange(1, 5)) <= MAX_RECORD_LEN,
        b.len() >= 9 + spec_u32_from_le_bytes(b.subrange(1, 5)),
        spec_u32_from_le_bytes(
            b.subrange(
                5 + spec_u32_from_le_bytes(b.subrange(1, 5)),
                9 + spec_u32_from_le_bytes(b.subrange(1, 5)),
            ),
        ) <= MAX_RECORD_LEN,
        ({
            let kl = spec_u32_from_le_bytes(b.subrange(1, 5)) as int;
            let vl = spec_u32_from_le_bytes(b.subrange(5 + kl, 9 + kl)) as int;
            let end = 9 + kl + vl;
            &&& b.len() >= end + 4
            &&& valid_utf8(b.subrange(5, 5 + kl))
            &&& valid_utf8(b.subrange(9 + kl, end))
            &&& spec_u32_from_le_bytes(b.subrange(end, end + 4)) != crc32(b.take(end))
        }),
    ensures
        ({
            let kl = spec_u32_from_le_bytes(b.subrange(1, 5)) as int;
            let vl = spec_u32_from_le_bytes(b.subrange(5 + kl, 9 + kl)) as int;
            let end = 9 + kl + vl;
            spec_read_entry(b) == Err::<Option<(EntryView, nat)>, WalError>(
                WalError::ChecksumMismatch {
                    expected: crc32(b.take(end)),
                    found: spec_u32_from_le_bytes(b.subrange(end, end + 4)),
                },
            )
        }),
{
}

/// A complete delete record whose stored checksum is not the CRC-32 of all
/// the bytes before it is refused with both values.
pub proof fn lemma_del_with_bad_checksum_refused(b: Seq<u8>)
    requires
        b.len() >= 5,
        b[0] == 2,
        spec_u32_from_le_bytes(b.subrange(1, 5)) <= MAX_RECORD_LEN,
        ({
            let end = 5 + spec_u32_from_le_bytes(b.subrange(1, 5)) as int;
            &&& b.len() >= end + 4
            &&& valid_utf8(b.subrange(5, end))
            &&& spec_u32_from_le_bytes(b.subrange(end, end + 4)) != crc32(b.take(end))
        }),
    ensures
        ({
            let end = 5 + spec_u32_from_le_bytes(b.subrange(1, 5)) as int;
            spec_read_entry(b) == Err::<Option<(EntryView, nat)>, WalError>(
                WalError::ChecksumMismatch {
                    expected: crc32(b.take(end)),
                    found: spec_u32_from_le_bytes(b.subrange(end, end + 4)),
                },
            )
        }),
{
}

/// Reading gives `Ok(None)` only where the bytes end before the record that
/// they announce does: a record that is all there is read or refused.
pub proof fn lemma_nothing_read_only_when_cut_short(b: Seq<u8>)
    ensures
        spec_read_entry(b) == Ok::<Option<(EntryView, nat)>, WalError>(None) ==> ({
            let kl = spec_u32_from_le_bytes(b.subrange(1, 5)) as int;
            ||| b.len() < 5
            ||| b[0] == 2 && b.len() < 9 + kl
            ||| b[0] == 1 && b.len() < 9 + kl
            ||| b[0] == 1 && b.len() < 13 + kl + spec_u32_from_le_bytes(b.subrange(5 + kl, 9 + kl))
        }),
{
}

} // verus!
