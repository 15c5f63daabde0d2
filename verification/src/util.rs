//! Content hashes.
use vstd::prelude::*;
use vstd::string::*;
use vstd::utf8::*;

use crate::sort::{
    keys_by, keys_distinct, law_sort_forgets_order, law_sorted_ascends, law_sorted_keeps_elements,
    lemma_sort_order_exists, sort_by_key, sorted_by, Keyed,
};
use crate::text::{bytes_less, bytes_lt, lemma_utf8_injective, text_lt, views, Text};

verus! {

/// The SHA-256 digest of `data`, as `sha2::Sha256::digest` computes it.
pub uninterp spec fn sha256_digest(data: Seq<u8>) -> Seq<u8>;

/// Calls `sha2::Sha256::digest`. The digest depends on the data alone and has
/// 32 bytes.
#[verifier::external_body]
fn sha256(data: &[u8]) -> (digest: Vec<u8>)
    ensures
        digest@ == sha256_digest(data@),
        digest@.len() == 32,
{
    <sha2::Sha256 as sha2::Digest>::digest(data).to_vec()
}

/// The lower-case hexadecimal digit for `n`.
pub open spec fn hex_digit(n: int) -> char {
    if n < 10 {
        ('0' as int + n) as char
    } else {
        ('a' as int + (n - 10)) as char
    }
}

/// The bytes in hexadecimal, two digits a byte.
pub open spec fn hex_text(data: Seq<u8>) -> Text {
    Seq::new(
        data.len() * 2,
        |i: int|
            if i % 2 == 0 {
                hex_digit(data[i / 2] as int / 16)
            } else {
                hex_digit(data[i / 2] as int % 16)
            },
    )
}

/// Calls `hex::encode`: each byte becomes two lower-case hexadecimal digits.
#[verifier::external_body]
fn hex_encode(data: &[u8]) -> (text: String)
    ensures
        text@ == hex_text(data@),
{
    hex::encode(data)
}

/// The hexadecimal SHA-256 of a byte string.
pub open spec fn sha256_text(data: Seq<u8>) -> Text {
    hex_text(sha256_digest(data))
}

/// The hexadecimal SHA-256 of `data`, 64 digits.
pub fn sha256_of_bytes(data: &[u8]) -> (text: String)
    ensures
        text@ == sha256_text(data@),
        text@.len() == 64,
{
    let digest = sha256(data);
    hex_encode(digest.as_slice())
}

/// A file of a directory: its path relative to the directory, and its bytes.
pub struct FileEntry {
    pub rel: String,
    pub data: Vec<u8>,
}

#[verifier::ext_equal]
pub struct FileEntryView {
    pub rel: Text,
    pub data: Seq<u8>,
}

impl View for FileEntry {
    type V = FileEntryView;

    open spec fn view(&self) -> FileEntryView {
        FileEntryView { rel: self.rel@, data: self.data@ }
    }
}

impl Keyed for FileEntry {
    open spec fn sort_key(&self) -> Seq<u8> {
        encode_utf8(self.rel@)
    }

    fn key_less(&self, other: &Self) -> (less: bool) {
        bytes_less(self.rel.as_str().as_bytes(), other.rel.as_str().as_bytes())
    }
}

/// What a file adds to the hashed bytes: its path and its content, each
/// followed by a zero byte.
pub open spec fn entry_bytes(e: FileEntryView) -> Seq<u8> {
    encode_utf8(e.rel).push(0) + e.data.push(0)
}

/// The bytes of the files, one after another.
pub open spec fn entries_bytes(entries: Seq<FileEntryView>) -> Seq<u8>
    decreases entries.len(),
{
    if entries.len() == 0 {
        Seq::empty()
    } else {
        entries_bytes(entries.drop_last()) + entry_bytes(entries.last())
    }
}

/// The files in the order of their relative paths.
pub open spec fn entries_sorted(entries: Seq<FileEntryView>) -> Seq<FileEntryView> {
    sorted_by(entries, |e: FileEntryView| encode_utf8(e.rel))
}

/// The bytes that identify a directory: those of its files in the order of
/// their relative paths.
pub fn dir_bytes(entries: Vec<FileEntry>) -> (bytes: Vec<u8>)
    ensures
        bytes@ == entries_bytes(entries_sorted(views(entries@))),
{
    proof {
        lemma_entries_sorted(entries@);
    }
    let ghost all = views(entries@);
    let sorted = sort_by_key(entries);
    let ghost files = views(sorted@);
    let mut bytes: Vec<u8> = Vec::new();
    let mut i: usize = 0;
    assert(files.take(0) =~= Seq::empty());
    while i < sorted.len()
        invariant
            files == views(sorted@),
            i <= sorted@.len(),
            bytes@ == entries_bytes(files.take(i as int)),
        decreases sorted.len() - i,
    {
        let ghost before = bytes@;
        push_bytes(&mut bytes, sorted[i].rel.as_str().as_bytes());
        bytes.push(0);
        push_bytes(&mut bytes, sorted[i].data.as_slice());
        bytes.push(0);
        assert(files.take(i + 1).drop_last() =~= files.take(i as int));
        assert(files[i as int] == sorted@[i as int]@);
        assert(bytes@ =~= before + entry_bytes(files[i as int]));
        i = i + 1;
    }
    assert(files.take(i as int) =~= files);
    bytes
}

fn push_bytes(bytes: &mut Vec<u8>, more: &[u8])
    ensures
        final(bytes)@ == old(bytes)@ + more@,
{
    let mut i: usize = 0;
    assert(old(bytes)@ + more@.take(0) =~= old(bytes)@);
    while i < more.len()
        invariant
            i <= more@.len(),
            bytes@ == old(bytes)@ + more@.take(i as int),
        decreases more.len() - i,
    {
        bytes.push(more[i]);
        assert(more@.take(i + 1) =~= more@.take(i as int).push(more@[i as int]));
        i = i + 1;
    }
    assert(more@.take(i as int) =~= more@);
}

/// Sorting files and sorting their views is the same.
proof fn lemma_entries_sorted(entries: Seq<FileEntry>)
    ensures
        views(sorted_by(entries, |e: FileEntry| e.sort_key())) == entries_sorted(views(entries)),
{
    let keys = keys_by(entries, |e: FileEntry| e.sort_key());
    let others = keys_by(views(entries), |e: FileEntryView| encode_utf8(e.rel));
    assert(keys =~= others);
    lemma_sort_order_exists(keys);
    assert(views(sorted_by(entries, |e: FileEntry| e.sort_key())) =~= entries_sorted(views(entries)));
}

/// The content hash of a directory, from its files in any order.
pub fn sha256_of_dir(entries: Vec<FileEntry>) -> (text: String)
    ensures
        text@ == sha256_text(entries_bytes(entries_sorted(views(entries@)))),
        text@.len() == 64,
{
    let bytes = dir_bytes(entries);
    sha256_of_bytes(bytes.as_slice())
}

/// The content hash of a directory does not depend on the order in which its
/// files are listed.
pub proof fn law_dir_hash_forgets_order(a: Seq<FileEntryView>, b: Seq<FileEntryView>)
    requires
        rels_distinct(a),
        rels_distinct(b),
        forall|e: FileEntryView| #[trigger] a.contains(e) <==> b.contains(e),
    ensures
        sha256_text(entries_bytes(entries_sorted(a))) == sha256_text(entries_bytes(entries_sorted(b))),
{
    let key = |e: FileEntryView| encode_utf8(e.rel);
    lemma_rels_distinct(a);
    lemma_rels_distinct(b);
    law_sort_forgets_order(a, b, key);
}

/// Whether no two files have the same relative path.
pub open spec fn rels_distinct(entries: Seq<FileEntryView>) -> bool {
    forall|i: int, j: int|
        0 <= i < entries.len() && 0 <= j < entries.len() && i != j ==> (#[trigger] entries[i]).rel != (
        #[trigger] entries[j]).rel
}

proof fn lemma_rels_distinct(entries: Seq<FileEntryView>)
    requires
        rels_distinct(entries),
    ensures
        keys_distinct(entries, |e: FileEntryView| encode_utf8(e.rel)),
{
    let key = |e: FileEntryView| encode_utf8(e.rel);
    assert forall|i: int, j: int| 0 <= i < entries.len() && 0 <= j < entries.len() && i != j implies key(
        #[trigger] entries[i],
    ) != key(#[trigger] entries[j]) by {
        if encode_utf8(entries[i].rel) == encode_utf8(entries[j].rel) {
            lemma_utf8_injective(entries[i].rel, entries[j].rel);
        }
    }
}

/// The hashed bytes of files are those of each in its turn: its path in UTF-8,
/// a zero byte, its content, a zero byte.
pub proof fn law_hashed_bytes(a: Seq<FileEntryView>, b: Seq<FileEntryView>, e: FileEntryView)
    ensures
        entries_bytes(a + b) == entries_bytes(a) + entries_bytes(b),
        entries_bytes(seq![e]) == encode_utf8(e.rel) + seq![0u8] + e.data + seq![0u8],
    decreases b.len(),
{
    reveal_with_fuel(entries_bytes, 2);
    assert(seq![e].drop_last() =~= Seq::<FileEntryView>::empty());
    assert(entries_bytes(seq![e]) =~= encode_utf8(e.rel) + seq![0u8] + e.data + seq![0u8]);
    if b.len() == 0 {
        assert(a + b =~= a);
        assert(entries_bytes(a) + entries_bytes(b) =~= entries_bytes(a));
    } else {
        law_hashed_bytes(a, b.drop_last(), e);
        assert((a + b).drop_last() =~= a + b.drop_last());
        assert(entries_bytes(a + b) =~= entries_bytes(a) + entries_bytes(b));
    }
}

/// Every file of a directory is hashed, none twice, and in the order of the
/// paths.
pub proof fn law_hashed_files(entries: Seq<FileEntryView>)
    ensures
        entries_sorted(entries).len() == entries.len(),
        forall|e: FileEntryView| #[trigger] entries_sorted(entries).contains(e) <==> entries.contains(e),
        forall|i: int, j: int|
            0 <= i < j < entries.len() ==> !text_lt(
                (#[trigger] entries_sorted(entries)[j]).rel,
                (#[trigger] entries_sorted(entries)[i]).rel,
            ),
{
    let key = |e: FileEntryView| encode_utf8(e.rel);
    let sorted = entries_sorted(entries);
    law_sorted_keeps_elements(entries, key);
    law_sorted_ascends(entries, key);
    assert forall|e: FileEntryView| #[trigger] sorted.contains(e) <==> entries.contains(e) by {
        assert(sorted_by(entries, key).contains(e) <==> entries.contains(e));
    }
    assert forall|i: int, j: int| 0 <= i < j < entries.len() implies !text_lt(
        (#[trigger] sorted[j]).rel,
        (#[trigger] sorted[i]).rel,
    ) by {
        assert(!bytes_lt(key(sorted_by(entries, key)[j]), key(sorted_by(entries, key)[i])));
    }
}

/// A hash is written in lower-case hexadecimal digits, two for each byte of the
/// digest, the higher half first; so hashes agree just where the digests do.
pub proof fn law_hash_text(a: Seq<u8>, b: Seq<u8>, i: int)
    ensures
        sha256_text(a).len() == 2 * sha256_digest(a).len(),
        0 <= i < sha256_digest(a).len() ==> {
            let high = sha256_text(a)[2 * i];
            let low = sha256_text(a)[2 * i + 1];
            let byte = sha256_digest(a)[i] as int;
            &&& byte / 16 < 10 ==> high as int == '0' as int + byte / 16
            &&& byte / 16 >= 10 ==> high as int == 'a' as int + byte / 16 - 10
            &&& byte % 16 < 10 ==> low as int == '0' as int + byte % 16
            &&& byte % 16 >= 10 ==> low as int == 'a' as int + byte % 16 - 10
        },
        sha256_text(a) == sha256_text(b) <==> sha256_digest(a) == sha256_digest(b),
{
    let x = sha256_digest(a);
    let y = sha256_digest(b);
    if sha256_text(a) == sha256_text(b) {
        assert(hex_text(x).len() == hex_text(y).len());
        assert forall|k: int| 0 <= k < x.len() implies x[k] == y[k] by {
            assert(hex_text(x)[2 * k] == hex_text(y)[2 * k]);
            assert(hex_text(x)[2 * k + 1] == hex_text(y)[2 * k + 1]);
        }
        assert(x =~= y);
    }
}

/// Two listings of the same files, in whatever order, have one hash, of 64
/// digits: that of the bytes of the files in the order of their paths.
pub proof fn law_dir_hash(a: Vec<FileEntry>, b: Vec<FileEntry>, x: String, y: String)
    requires
        call_ensures(sha256_of_dir, (a,), x),
        call_ensures(sha256_of_dir, (b,), y),
        rels_distinct(views(a@)),
        rels_distinct(views(b@)),
        forall|e: FileEntryView| #[trigger] views(a@).contains(e) <==> views(b@).contains(e),
    ensures
        x@ == y@,
        x@.len() == 64,
{
    law_dir_hash_forgets_order(views(a@), views(b@));
}

} // verus!
