//! The stored form of the fingerprint cache: plain values, encoded with `bincode` in its
//! little-endian fixed-width configuration and compressed with `zstd`.

use crate::file_dependencies::dependency_tracker::DependencyRecord;
use crate::file_dependencies::file_fingerprint::FileFingerprint;
use crate::string_map::{stored, StringMap};
use vstd::prelude::*;

verus! {

/// The compression level of the stored cache.
pub const COMPRESSION_LEVEL: i32 = 3;

/// The most that a stored cache may claim to hold, in bytes: input that claims more is
/// refused before anything is allocated for it.
pub const DECODE_LIMIT: usize = 1073741824;

/// The bytes that `bincode` encodes `records` to, little-endian and fixed-width, `None`
/// where it reports an error.
pub uninterp spec fn encoded_records(
    records: Seq<(Seq<char>, Seq<(Seq<char>, (u32, u64, u32))>)>,
) -> Option<Seq<u8>>;

/// The records that `bincode` decodes from `bytes`, little-endian and fixed-width and
/// within [`DECODE_LIMIT`], `None` where it reports an error.
pub uninterp spec fn decoded_records(bytes: Seq<u8>) -> Option<
    Seq<(Seq<char>, Seq<(Seq<char>, (u32, u64, u32))>)>,
>;

/// The zstd frame that `bytes` compress to at `level`, `None` where `zstd` reports an
/// error.
pub uninterp spec fn compressed(bytes: Seq<u8>, level: i32) -> Option<Seq<u8>>;

/// The bytes that the zstd frame `bytes` decompresses to, `None` where `zstd` reports an
/// error.
pub uninterp spec fn decompressed(bytes: Seq<u8>) -> Option<Seq<u8>>;

/// Encodes with `bincode::encode_to_vec`, little-endian and fixed-width. Trusted: the
/// result is named, nothing more is claimed of it.
#[verifier::external_body]
pub(crate) fn encode_records(records: &Vec<(String, Vec<(String, (u32, u64, u32))>)>) -> (res:
    Option<Vec<u8>>)
    ensures
        res matches Some(bytes) ==> encoded_records(records.deep_view()) == Some(bytes@),
        res is None ==> encoded_records(records.deep_view()) is None,
{
    bincode::encode_to_vec(records, bincode::config::legacy().with_limit::<DECODE_LIMIT>()).ok()
}

/// Decodes with `bincode::decode_from_slice`, little-endian and fixed-width, refusing
/// input that claims more than [`DECODE_LIMIT`]. Trusted: the result is named, nothing
/// more is claimed of it.
#[verifier::external_body]
pub(crate) fn decode_records(bytes: &[u8]) -> (res: Option<
    Vec<(String, Vec<(String, (u32, u64, u32))>)>,
>)
    ensures
        res matches Some(records) ==> decoded_records(bytes@) == Some(records.deep_view()),
        res is None ==> decoded_records(bytes@) is None,
{
    bincode::decode_from_slice::<Vec<(String, Vec<(String, (u32, u64, u32))>)>, _>(
        bytes,
        bincode::config::legacy().with_limit::<DECODE_LIMIT>(),
    ).ok().map(|decoded| decoded.0)
}

/// Compresses with `zstd::encode_all`. Trusted: the result is named, nothing more is
/// claimed of it.
#[verifier::external_body]
pub(crate) fn compress(bytes: &[u8], level: i32) -> (res: Option<Vec<u8>>)
    ensures
        res matches Some(frame) ==> compressed(bytes@, level) == Some(frame@),
        res is None ==> compressed(bytes@, level) is None,
{
    zstd::encode_all(bytes, level).ok()
}

/// Decompresses with `zstd::decode_all`. Trusted: the result is named, nothing more is
/// claimed of it.
#[verifier::external_body]
pub(crate) fn decompress(bytes: &[u8]) -> (res: Option<Vec<u8>>)
    ensures
        res matches Some(data) ==> decompressed(bytes@) == Some(data@),
        res is None ==> decompressed(bytes@) is None,
{
    zstd::decode_all(bytes).ok()
}

/// The stored form of a fingerprint: a tag, then the seconds and nanoseconds of a
/// modification time after the epoch (tag 0) or before it (tag 2), or a hash and zero
/// (tag 1).
pub open spec fn plain_of(fingerprint: FileFingerprint) -> (u32, u64, u32) {
    match fingerprint {
        FileFingerprint::ModifiedTime { before_epoch, secs, nanos } => (
            if before_epoch {
                2u32
            } else {
                0u32
            },
            secs,
            nanos,
        ),
        FileFingerprint::Hash(hash) => (1u32, hash, 0u32),
    }
}

/// The fingerprint that a stored form stands for, if it stands for one.
pub open spec fn fingerprint_of(plain: (u32, u64, u32)) -> Option<FileFingerprint> {
    if plain.0 == 0 || plain.0 == 2 {
        Some(
            FileFingerprint::ModifiedTime {
                before_epoch: plain.0 == 2,
                secs: plain.1,
                nanos: plain.2,
            },
        )
    } else if plain.0 == 1 && plain.2 == 0 {
        Some(FileFingerprint::Hash(plain.1))
    } else {
        None
    }
}

/// The stored form of a fingerprint.
pub fn fingerprint_to_plain(fingerprint: FileFingerprint) -> (plain: (u32, u64, u32))
    ensures
        plain == plain_of(fingerprint),
        fingerprint_of(plain) == Some(fingerprint),
{
    match fingerprint {
        FileFingerprint::ModifiedTime { before_epoch, secs, nanos } => (
            if before_epoch {
                2
            } else {
                0
            },
            secs,
            nanos,
        ),
        FileFingerprint::Hash(hash) => (1, hash, 0),
    }
}

/// Reads a fingerprint from its stored form.
pub fn fingerprint_from_plain(plain: (u32, u64, u32)) -> (res: Option<FileFingerprint>)
    ensures
        res == fingerprint_of(plain),
{
    if plain.0 == 0 || plain.0 == 2 {
        Some(
            FileFingerprint::ModifiedTime {
                before_epoch: plain.0 == 2,
                secs: plain.1,
                nanos: plain.2,
            },
        )
    } else if plain.0 == 1 && plain.2 == 0 {
        Some(FileFingerprint::Hash(plain.1))
    } else {
        None
    }
}

/// The record that the first `n` stored entries build, each entry replacing an earlier
/// one for the same path. Entries that stand for no fingerprint are passed over.
pub open spec fn record_entries(entries: Seq<(Seq<char>, (u32, u64, u32))>, n: nat) -> Map<
    Seq<char>,
    FileFingerprint,
>
    decreases n,
{
    if n == 0 || n > entries.len() {
        Map::empty()
    } else {
        match fingerprint_of(entries[n - 1].1) {
            Some(fingerprint) => record_entries(entries, (n - 1) as nat).insert(
                entries[n - 1].0,
                fingerprint,
            ),
            None => record_entries(entries, (n - 1) as nat),
        }
    }
}

/// The record that stored entries stand for: `None` if any of them stands for no
/// fingerprint.
pub open spec fn record_from_plain(entries: Seq<(Seq<char>, (u32, u64, u32))>) -> Option<
    Map<Seq<char>, FileFingerprint>,
> {
    if forall|i: int| 0 <= i < entries.len() ==> fingerprint_of((#[trigger] entries[i]).1).is_some() {
        Some(record_entries(entries, entries.len()))
    } else {
        None
    }
}

/// The stored entries of a record: each path with the stored form of its fingerprint,
/// in the record's order.
pub open spec fn plain_record(record: &DependencyRecord) -> Seq<(Seq<char>, (u32, u64, u32))> {
    Seq::new(
        record.spec_keys().len(),
        |j: int| (record.spec_keys()[j], plain_of(record.spec_values()[j])),
    )
}

/// The stored entries of a valid record stand for that record.
pub proof fn lemma_plain_record(record: &DependencyRecord)
    requires
        record.wf(),
    ensures
        record_from_plain(plain_record(record)) == Some(record@),
{
    let plain = plain_record(record);
    assert forall|j: int| 0 <= j < plain.len() implies fingerprint_of((#[trigger] plain[j]).1).is_some() by {
        assert(plain[j] == (record.spec_keys()[j], plain_of(record.spec_values()[j])));
    }
    lemma_record_entries_stored(plain, record.spec_keys(), record.spec_values(), plain.len());
    record.lemma_view_is_stored();
}

/// Writes a record as stored entries, in the record's order.
pub fn record_to_plain(record: &DependencyRecord) -> (entries: Vec<(String, (u32, u64, u32))>)
    requires
        record.wf(),
    ensures
        entries.deep_view() == plain_record(record),
        record_from_plain(entries.deep_view()) == Some(record@),
{
    let mut out: Vec<(String, (u32, u64, u32))> = Vec::new();
    let n = record.len();
    let mut i: usize = 0;
    let ghost keys = record.spec_keys();
    let ghost values = record.spec_values();
    while i < n
        invariant
            record.wf(),
            keys == record.spec_keys(),
            values == record.spec_values(),
            n == keys.len(),
            i <= n,
            out@.len() == i,
            forall|j: int|
                0 <= j < i ==> (#[trigger] out.deep_view()[j]) == (keys[j], plain_of(values[j])),
        decreases n - i,
    {
        let key = record.key_at(i).clone();
        let plain = fingerprint_to_plain(*record.value_at(i));
        let ghost before = out;
        out.push((key, plain));
        proof {
            assert forall|j: int| 0 <= j < i + 1 implies (#[trigger] out.deep_view()[j]) == (
                keys[j],
                plain_of(values[j]),
            ) by {
                assert(out.deep_view()[j] == (out@[j].0@, out@[j].1));
                if j < i {
                    assert(out@[j] == before@[j]);
                    assert(before.deep_view()[j] == (before@[j].0@, before@[j].1));
                }
            }
        }
        i += 1;
    }
    proof {
        assert(out.deep_view() =~= plain_record(record));
        lemma_plain_record(record);
    }
    out
}

/// Stored entries that hold the keys and the stored forms of the values of a map build
/// what storing the values under the keys builds.
proof fn lemma_record_entries_stored(
    plain: Seq<(Seq<char>, (u32, u64, u32))>,
    keys: Seq<Seq<char>>,
    values: Seq<FileFingerprint>,
    n: nat,
)
    requires
        n <= plain.len(),
        plain.len() == keys.len(),
        plain.len() == values.len(),
        forall|j: int| 0 <= j < plain.len() ==> (#[trigger] plain[j]) == (keys[j], plain_of(values[j])),
    ensures
        record_entries(plain, n) == stored(keys, values, n),
    decreases n,
{
    if n > 0 {
        lemma_record_entries_stored(plain, keys, values, (n - 1) as nat);
        assert(plain[n - 1] == (keys[n - 1], plain_of(values[n - 1])));
    }
}

/// Reads a record from stored entries.
pub fn record_from_entries(entries: &Vec<(String, (u32, u64, u32))>) -> (res: Option<DependencyRecord>)
    ensures
        match record_from_plain(entries.deep_view()) {
            Some(record) => (res matches Some(found) && found.wf() && found@ == record),
            None => res is None,
        },
{
    let ghost plain = entries.deep_view();
    let mut record: DependencyRecord = StringMap::new();
    let mut i: usize = 0;
    while i < entries.len()
        invariant
            plain == entries.deep_view(),
            i <= entries.len(),
            record.wf(),
            record@ == record_entries(plain, i as nat),
            forall|j: int| 0 <= j < i ==> fingerprint_of((#[trigger] plain[j]).1).is_some(),
        decreases entries.len() - i,
    {
        assert(plain[i as int] == (entries@[i as int].0@, entries@[i as int].1));
        match fingerprint_from_plain(entries[i].1) {
            Some(fingerprint) => {
                record.insert(entries[i].0.clone(), fingerprint);
            },
            None => {
                return None;
            },
        }
        i += 1;
    }
    Some(record)
}

/// Whether two lists of stored entries are the same.
pub fn entries_equal(a: &Vec<(String, (u32, u64, u32))>, b: &Vec<(String, (u32, u64, u32))>) -> (res:
    bool)
    ensures
        res == (a.deep_view() == b.deep_view()),
{
    if a.len() != b.len() {
        assert(a.deep_view().len() != b.deep_view().len());
        return false;
    }
    let mut i: usize = 0;
    while i < a.len()
        invariant
            a@.len() == b@.len(),
            i <= a.len(),
            forall|j: int| 0 <= j < i ==> (#[trigger] a.deep_view()[j]) == b.deep_view()[j],
        decreases a.len() - i,
    {
        let same = a[i].0 == b[i].0 && a[i].1.0 == b[i].1.0 && a[i].1.1 == b[i].1.1 && a[i].1.2
            == b[i].1.2;
        assert(a.deep_view()[i as int] == (a@[i as int].0@, a@[i as int].1));
        assert(b.deep_view()[i as int] == (b@[i as int].0@, b@[i as int].1));
        if !same {
            assert(a.deep_view()[i as int] != b.deep_view()[i as int]);
            return false;
        }
        i += 1;
    }
    assert(a.deep_view() =~= b.deep_view());
    true
}

/// Whether two lists of stored records are the same.
pub fn records_equal_plain(
    a: &Vec<(String, Vec<(String, (u32, u64, u32))>)>,
    b: &Vec<(String, Vec<(String, (u32, u64, u32))>)>,
) -> (res: bool)
    ensures
        res == (a.deep_view() == b.deep_view()),
{
    if a.len() != b.len() {
        assert(a.deep_view().len() != b.deep_view().len());
        return false;
    }
    let mut i: usize = 0;
    while i < a.len()
        invariant
            a@.len() == b@.len(),
            i <= a.len(),
            forall|j: int| 0 <= j < i ==> (#[trigger] a.deep_view()[j]) == b.deep_view()[j],
        decreases a.len() - i,
    {
        let same = a[i].0 == b[i].0 && entries_equal(&a[i].1, &b[i].1);
        assert(a.deep_view()[i as int] == (a@[i as int].0@, a@[i as int].1.deep_view()));
        assert(b.deep_view()[i as int] == (b@[i as int].0@, b@[i as int].1.deep_view()));
        if !same {
            assert(a.deep_view()[i as int] != b.deep_view()[i as int]);
            return false;
        }
        i += 1;
    }
    assert(a.deep_view() =~= b.deep_view());
    true
}

/// The tracker that the first `n` stored records build, each record replacing an earlier
/// one for the same task. Records that stand for no record are passed over.
pub open spec fn tracker_entries(
    records: Seq<(Seq<char>, Seq<(Seq<char>, (u32, u64, u32))>)>,
    n: nat,
) -> Map<Seq<char>, Map<Seq<char>, FileFingerprint>>
    decreases n,
{
    if n == 0 || n > records.len() {
        Map::empty()
    } else {
        match record_from_plain(records[n - 1].1) {
            Some(record) => tracker_entries(records, (n - 1) as nat).insert(records[n - 1].0, record),
            None => tracker_entries(records, (n - 1) as nat),
        }
    }
}

/// The tracker that stored records stand for: `None` if any of them holds an entry that
/// stands for no fingerprint.
pub open spec fn tracker_from_plain(
    records: Seq<(Seq<char>, Seq<(Seq<char>, (u32, u64, u32))>)>,
) -> Option<Map<Seq<char>, Map<Seq<char>, FileFingerprint>>> {
    if forall|i: int| 0 <= i < records.len() ==> record_from_plain((#[trigger] records[i]).1).is_some() {
        Some(tracker_entries(records, records.len()))
    } else {
        None
    }
}

/// What reading `bytes` as a stored cache gives: the tracker they stand for, and the
/// empty tracker where they cannot be decompressed, cannot be decoded, or stand for none.
pub open spec fn read_as(bytes: Seq<u8>) -> Map<Seq<char>, Map<Seq<char>, FileFingerprint>> {
    match decompressed(bytes) {
        Some(data) => match decoded_records(data) {
            Some(records) => match tracker_from_plain(records) {
                Some(tracker) => tracker,
                None => Map::empty(),
            },
            None => Map::empty(),
        },
        None => Map::empty(),
    }
}

/// Whether `bytes` are the stored form of `records`, and one that reads back: the
/// records encode, the encoding decodes to the records, it compresses to `bytes`, and
/// `bytes` decompress to the encoding.
pub open spec fn is_stored_form(
    records: Seq<(Seq<char>, Seq<(Seq<char>, (u32, u64, u32))>)>,
    bytes: Seq<u8>,
) -> bool {
    &&& encoded_records(records) matches Some(encoding)
    &&& decoded_records(encoding) == Some(records)
    &&& compressed(encoding, COMPRESSION_LEVEL) == Some(bytes)
    &&& decompressed(bytes) == Some(encoding)
}

/// Whether two byte strings are the same.
pub fn bytes_equal(a: &Vec<u8>, b: &Vec<u8>) -> (res: bool)
    ensures
        res == (a@ == b@),
{
    if a.len() != b.len() {
        return false;
    }
    let mut i: usize = 0;
    while i < a.len()
        invariant
            a@.len() == b@.len(),
            i <= a.len(),
            forall|j: int| 0 <= j < i ==> a@[j] == b@[j],
        decreases a.len() - i,
    {
        if a[i] != b[i] {
            return false;
        }
        i += 1;
    }
    assert(a@ =~= b@);
    true
}

} // verus!
