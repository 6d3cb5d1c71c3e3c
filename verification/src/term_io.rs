//! The file format of a term map: three little-endian words, the number of terms, the bytes of a
//! key and the system size, and then each term's key and the eight bytes of its coefficient. The
//! whole is compressed with gzip.

use crate::traits::AbstractTerm;
use std::io::{BufReader, Read, Write};
use vstd::bytes;
use vstd::prelude::*;
use vstd::slice::slice_subrange;

verus! {

/// What decompressing gives of the first `n` bytes: all of them, or as many as the stream holds,
/// or nothing where the stream is damaged before that.
pub uninterp spec fn inflated(gz: Seq<u8>, n: nat) -> Option<Seq<u8>>;

/// The first `n` entries, or all of them where there are fewer.
pub open spec fn first(data: Seq<u8>, n: nat) -> Seq<u8> {
    if n <= data.len() {
        data.take(n as int)
    } else {
        data
    }
}

/// The stream is whole, and decompressing it gives `data`.
pub open spec fn inflates_to(gz: Seq<u8>, data: Seq<u8>) -> bool {
    forall|n: nat| #[trigger] inflated(gz, n) == Some(first(data, n))
}

/// Compresses bytes.
///
/// Trusts `flate2::write::GzEncoder`, writing to memory, where no write fails: decompressing the
/// result gives back what was written, to its end.
#[verifier::external_body]
fn deflate(data: &[u8]) -> (gz: Vec<u8>)
    ensures
        inflates_to(gz@, data@),
{
    let mut enc = flate2::write::GzEncoder::new(Vec::new(), flate2::Compression::default());
    enc.write_all(data).expect("memory takes every byte");
    enc.finish().expect("memory takes every byte")
}

/// Decompresses the first `n` bytes.
///
/// Trusts `flate2::read::GzDecoder`, read byte by byte through a buffer of a fixed size: the
/// bytes that come out, and whether an error comes before the last of them, are a function of
/// the compressed bytes and of `n`. Where no error comes, fewer bytes come out only at the end
/// of the stream, and whoever asks for fewer gets the first of these.
#[verifier::external_body]
fn inflate(gz: &[u8], n: usize) -> (r: Option<Vec<u8>>)
    ensures
        match r {
            Some(data) => inflated(gz@, n as nat) == Some(data@) && data@.len() <= n && (forall|
                k: nat,
            |
                k <= n ==> #[trigger] inflated(gz@, k) == Some(first(data@, k))),
            None => inflated(gz@, n as nat) is None,
        },
{
    let reader = BufReader::new(flate2::read::GzDecoder::new(gz));
    reader.bytes().take(n).collect::<Result<Vec<u8>, std::io::Error>>().ok()
}

/// The eight bytes of a word, least significant first.
pub open spec fn le(x: u64) -> Seq<u8> {
    bytes::spec_u64_to_le_bytes(x)
}

/// The word that eight bytes at `at` spell.
pub open spec fn word_at(data: Seq<u8>, at: int) -> u64 {
    bytes::spec_u64_from_le_bytes(data.subrange(at, at + 8))
}

/// The bytes of one key, which the header records: the first term's.
pub open spec fn stride_of<M: AbstractTerm>(terms: Seq<(M, u64)>) -> u64 {
    if terms.len() == 0 {
        0
    } else {
        terms[0].0.bytes_of().len() as u64
    }
}

/// The system size, which the header records: the first term's.
pub open spec fn size_of<M: AbstractTerm>(terms: Seq<(M, u64)>) -> u64 {
    if terms.len() == 0 {
        0
    } else {
        terms[0].0.size_of()
    }
}

/// The records of the first `n` terms, one after another.
pub open spec fn records<M: AbstractTerm>(terms: Seq<(M, u64)>, n: int) -> Seq<u8>
    decreases n,
{
    if n <= 0 {
        Seq::empty()
    } else {
        records(terms, n - 1) + (terms[n - 1].0.bytes_of() + le(terms[n - 1].1))
    }
}

/// The bytes of a term file, before compression.
pub open spec fn file_bytes<M: AbstractTerm>(terms: Seq<(M, u64)>) -> Seq<u8> {
    le(terms.len() as u64) + le(stride_of(terms)) + le(size_of(terms)) + records(
        terms,
        terms.len() as int,
    )
}

/// Record `i` of a term file with keys of `stride` bytes.
pub open spec fn record_at<M: AbstractTerm>(
    data: Seq<u8>,
    stride: int,
    size: u64,
    i: int,
) -> (M, u64) {
    let at = 24 + i * (stride + 8);
    (M::read_from(data.subrange(at, at + stride), size), word_at(data, at + stride))
}

/// The terms that the bytes of a term file hold, if there are enough bytes for them.
pub open spec fn parsed<M: AbstractTerm>(data: Seq<u8>) -> Option<Seq<(M, u64)>> {
    if data.len() < 24 {
        None
    } else {
        let n = word_at(data, 0);
        let stride = word_at(data, 8);
        if 24 + n * (stride + 8) > data.len() {
            None
        } else {
            Some(
                Seq::new(
                    n as nat,
                    |i: int| record_at::<M>(data, stride as int, word_at(data, 16), i),
                ),
            )
        }
    }
}

/// Why a term file could not be read.
#[derive(Clone, Copy, PartialEq, Eq, Debug, Structural)]
pub enum TermFileError {
    /// The bytes end before the last record does.
    EndsEarly,
    /// The compressed stream is damaged before the last record ends.
    Damaged,
}

/// Appends the eight bytes of a word.
fn push_word(out: &mut Vec<u8>, x: u64)
    ensures
        final(out)@ == old(out)@ + le(x),
{
    let mut b: Vec<u8> = bytes::u64_to_le_bytes(x);
    out.append(&mut b);
}

/// The bytes of a term file, before compression.
pub fn encode_terms<M: AbstractTerm>(terms: &Vec<(M, u64)>) -> (out: Vec<u8>)
    ensures
        out@ == file_bytes(terms@),
{
    let n: usize = terms.len();
    let mut out: Vec<u8> = Vec::new();
    push_word(&mut out, n as u64);
    let (stride, size): (u64, u64) = if n == 0 {
        (0, 0)
    } else {
        (terms[0].0.to_bytes_vec().len() as u64, terms[0].0.system_size())
    };
    push_word(&mut out, stride);
    push_word(&mut out, size);
    let ghost head = out@;
    let mut i: usize = 0;
    proof {
        assert(out@ =~= head + records(terms@, 0));
    }
    while i < n
        invariant
            i <= n,
            n == terms@.len(),
            out@ == head + records(terms@, i as int),
        decreases n - i,
    {
        let mut key: Vec<u8> = terms[i].0.to_bytes_vec();
        out.append(&mut key);
        push_word(&mut out, terms[i].1);
        i += 1;
        proof {
            assert(out@ =~= head + records(terms@, i as int));
        }
    }
    proof {
        assert(head =~= le(n as u64) + le(stride) + le(size));
    }
    out
}

/// Reads the word at `at`.
fn read_word(data: &[u8], at: usize) -> (x: u64)
    requires
        at + 8 <= data@.len(),
    ensures
        x == word_at(data@, at as int),
{
    let _len: usize = data.len();
    bytes::u64_from_le_bytes(slice_subrange(data, at, at + 8))
}

/// The terms that the bytes of a term file hold.
pub fn decode_terms<M: AbstractTerm>(data: &[u8]) -> (r: Result<Vec<(M, u64)>, TermFileError>)
    ensures
        match r {
            Ok(v) => parsed::<M>(data@) == Some(v@),
            Err(e) => parsed::<M>(data@) is None && e == TermFileError::EndsEarly,
        },
{
    let len: usize = data.len();
    if len < 24 {
        return Err(TermFileError::EndsEarly);
    }
    let n: u64 = read_word(data, 0);
    let stride: u64 = read_word(data, 8);
    let size: u64 = read_word(data, 16);
    let mut terms: Vec<(M, u64)> = Vec::new();
    let mut at: usize = 24;
    let mut i: u64 = 0;
    proof {
        assert(0 * (stride + 8) == 0) by (nonlinear_arith);
    }
    while i < n
        invariant
            len == data@.len(),
            24 <= at <= len,
            i <= n,
            n == word_at(data@, 0),
            stride == word_at(data@, 8),
            size == word_at(data@, 16),
            at == 24 + i * (stride + 8),
            terms@.len() == i,
            forall|k: int|
                0 <= k < i ==> #[trigger] terms@[k] == record_at::<M>(
                    data@,
                    stride as int,
                    size,
                    k,
                ),
        decreases n - i,
    {
        let left: usize = len - at;
        proof {
            let s = stride as int;
            assert((i + 1) * (s + 8) == i * (s + 8) + (s + 8)) by (nonlinear_arith);
            assert((i + 1) * (s + 8) <= n * (s + 8)) by (nonlinear_arith)
                requires
                    i + 1 <= n,
                    s >= 0,
            ;
        }
        if left < 8 || ((left - 8) as u64) < stride {
            return Err(TermFileError::EndsEarly);
        }
        let key: usize = stride as usize;
        let term: M = M::from_bytes_vec(slice_subrange(data, at, at + key), size);
        terms.push((term, read_word(data, at + key)));
        at += key + 8;
        i += 1;
    }
    proof {
        assert(terms@ =~= parsed::<M>(data@).unwrap());
    }
    Ok(terms)
}

/// The bytes up to the end of the last record, as the header of a term file tells.
pub open spec fn extent(header: Seq<u8>) -> int {
    24 + word_at(header, 0) * (word_at(header, 8) + 8)
}

/// What loading a compressed term file gives. Nothing past the last record is looked at.
pub open spec fn loaded<M: AbstractTerm>(gz: Seq<u8>) -> Result<Seq<(M, u64)>, TermFileError> {
    match inflated(gz, 24) {
        None => Err(TermFileError::Damaged),
        Some(header) => if header.len() < 24 {
            Err(TermFileError::EndsEarly)
        } else {
            let all = if extent(header) <= usize::MAX {
                extent(header) as nat
            } else {
                usize::MAX as nat
            };
            match inflated(gz, all) {
                None => Err(TermFileError::Damaged),
                Some(data) => match parsed::<M>(data) {
                    Some(terms) => Ok(terms),
                    None => Err(TermFileError::EndsEarly),
                },
            }
        },
    }
}

/// The compressed bytes of a term file.
pub fn save_terms<M: AbstractTerm>(terms: &Vec<(M, u64)>) -> (gz: Vec<u8>)
    ensures
        inflates_to(gz@, file_bytes(terms@)),
{
    let data: Vec<u8> = encode_terms(terms);
    deflate(data.as_slice())
}

/// The bytes to ask of a stream whose header is given, as far as a length can tell them.
fn bytes_to_ask(header: &[u8]) -> (n: usize)
    requires
        header@.len() >= 24,
    ensures
        n == (if extent(header@) <= usize::MAX {
            extent(header@)
        } else {
            usize::MAX as int
        }),
{
    let count: u64 = read_word(header, 0);
    let stride: u64 = read_word(header, 8);
    proof {
        let each = stride + 8;
        assert(count == 0 ==> count * each == 0) by (nonlinear_arith);
        assert(count > 0 ==> count * each >= each) by (nonlinear_arith)
            requires
                count >= 0,
                each >= 8,
        ;
    }
    if count == 0 {
        return 24;
    }
    let each: u64 = match stride.checked_add(8) {
        Some(each) => each,
        None => {
            return usize::MAX;
        },
    };
    let body: u64 = match count.checked_mul(each) {
        Some(body) => body,
        None => {
            return usize::MAX;
        },
    };
    match body.checked_add(24) {
        Some(all) => if all <= usize::MAX as u64 {
            all as usize
        } else {
            usize::MAX
        },
        None => usize::MAX,
    }
}

/// The terms of a compressed term file. Bytes past the last record, and damage there, go
/// unnoticed.
pub fn load_terms<M: AbstractTerm>(gz: &[u8]) -> (r: Result<Vec<(M, u64)>, TermFileError>)
    ensures
        match r {
            Ok(v) => loaded::<M>(gz@) == Ok::<Seq<(M, u64)>, TermFileError>(v@),
            Err(e) => loaded::<M>(gz@) == Err::<Seq<(M, u64)>, TermFileError>(e),
        },
{
    match inflate(gz, 24) {
        None => Err(TermFileError::Damaged),
        Some(header) => {
            if header.len() < 24 {
                return Err(TermFileError::EndsEarly);
            }
            match inflate(gz, bytes_to_ask(header.as_slice())) {
                None => Err(TermFileError::Damaged),
                Some(data) => decode_terms::<M>(data.as_slice()),
            }
        },
    }
}

/// All terms have keys of one length and one system size.
pub open spec fn uniform<M: AbstractTerm>(terms: Seq<(M, u64)>) -> bool {
    forall|i: int|
        0 <= i < terms.len() ==> (#[trigger] terms[i]).0.bytes_of().len() == stride_of(terms)
            && terms[i].0.size_of() == size_of(terms)
}

/// The records of terms with keys of one length are evenly spaced.
proof fn lemma_records<M: AbstractTerm>(terms: Seq<(M, u64)>, n: int)
    requires
        uniform(terms),
        0 <= n <= terms.len(),
    ensures
        records(terms, n).len() == n * (stride_of(terms) + 8),
        forall|i: int|
            0 <= i < n ==> #[trigger] records(terms, n).subrange(
                i * (stride_of(terms) + 8),
                i * (stride_of(terms) + 8) + stride_of(terms),
            ) == terms[i].0.bytes_of(),
        forall|i: int|
            0 <= i < n ==> #[trigger] records(terms, n).subrange(
                i * (stride_of(terms) + 8) + stride_of(terms),
                i * (stride_of(terms) + 8) + stride_of(terms) + 8,
            ) == le(terms[i].1),
    decreases n,
{
    bytes::lemma_auto_spec_u64_to_from_le_bytes();
    let s = stride_of(terms) as int;
    if n > 0 {
        lemma_records(terms, n - 1);
        let before = records(terms, n - 1);
        let all = records(terms, n);
        assert(terms[n - 1].0.bytes_of().len() == s);
        assert(n * (s + 8) == (n - 1) * (s + 8) + (s + 8)) by (nonlinear_arith);
        assert forall|i: int| 0 <= i < n implies #[trigger] all.subrange(
            i * (s + 8),
            i * (s + 8) + s,
        ) == terms[i].0.bytes_of() by {
            if i < n - 1 {
                lemma_inside(i, n - 1, s);
                assert(all.subrange(i * (s + 8), i * (s + 8) + s) =~= before.subrange(
                    i * (s + 8),
                    i * (s + 8) + s,
                ));
            } else {
                assert(all.subrange(i * (s + 8), i * (s + 8) + s) =~= terms[i].0.bytes_of());
            }
        }
        assert forall|i: int| 0 <= i < n implies #[trigger] all.subrange(
            i * (s + 8) + s,
            i * (s + 8) + s + 8,
        ) == le(terms[i].1) by {
            if i < n - 1 {
                lemma_inside(i, n - 1, s);
                assert(all.subrange(i * (s + 8) + s, i * (s + 8) + s + 8) =~= before.subrange(
                    i * (s + 8) + s,
                    i * (s + 8) + s + 8,
                ));
            } else {
                assert(all.subrange(i * (s + 8) + s, i * (s + 8) + s + 8) =~= le(terms[i].1));
            }
        }
    } else {
        assert(0 * (s + 8) == 0) by (nonlinear_arith);
    }
}

/// Record `i` of `n` ends within them.
proof fn lemma_inside(i: int, n: int, s: int)
    requires
        0 <= i < n,
        0 <= s,
    ensures
        0 <= i * (s + 8),
        i * (s + 8) + s + 8 <= n * (s + 8),
{
    assert(0 <= i * (s + 8) && i * (s + 8) + s + 8 <= n * (s + 8)) by (nonlinear_arith)
        requires
            0 <= i < n,
            0 <= s,
    ;
}

/// Loading a saved term file gives back the terms, in order, where their keys have one length
/// and they have one system size.
pub proof fn law_file_round_trip<M: AbstractTerm>(terms: Seq<(M, u64)>, gz: Seq<u8>)
    requires
        uniform(terms),
        terms.len() <= u64::MAX,
        terms.len() > 0 ==> terms[0].0.bytes_of().len() <= u64::MAX,
        inflates_to(gz, file_bytes(terms)),
        file_bytes(terms).len() <= usize::MAX,
    ensures
        loaded::<M>(gz) == Ok::<Seq<(M, u64)>, TermFileError>(terms),
{
    bytes::lemma_auto_spec_u64_to_from_le_bytes();
    let data = file_bytes(terms);
    let n = terms.len() as int;
    let s = stride_of(terms) as int;
    let body = records(terms, n);
    lemma_records(terms, n);
    assert(data.subrange(0, 8) =~= le(n as u64));
    assert(data.subrange(8, 16) =~= le(stride_of(terms)));
    assert(data.subrange(16, 24) =~= le(size_of(terms)));
    assert(data.len() == 24 + n * (s + 8));
    let got = parsed::<M>(data).unwrap();
    assert forall|i: int| 0 <= i < n implies #[trigger] got[i] == terms[i] by {
        lemma_inside(i, n, s);
        let at = 24 + i * (s + 8);
        assert(data.subrange(at, at + s) =~= body.subrange(i * (s + 8), i * (s + 8) + s));
        assert(data.subrange(at + s, at + s + 8) =~= body.subrange(
            i * (s + 8) + s,
            i * (s + 8) + s + 8,
        ));
        terms[i].0.read_law();
        assert(terms[i].0.bytes_of() == data.subrange(at, at + s));
        assert(terms[i].0.size_of() == size_of(terms));
        assert(word_at(data, at + s) == terms[i].1);
    }
    assert(got =~= terms);
    let header = first(data, 24);
    assert(data.len() >= 24) by (nonlinear_arith)
        requires
            data.len() == 24 + n * (s + 8),
            n >= 0,
            s >= 0,
    ;
    assert(inflated(gz, 24) == Some(header));
    assert(header.subrange(0, 8) =~= le(n as u64));
    assert(header.subrange(8, 16) =~= le(stride_of(terms)));
    assert(extent(header) == data.len());
    assert(first(data, data.len()) =~= data);
}

/// A term file read record by record.
pub struct TermStreamer {
    system_size: u64,
    key_stride: u64,
    remaining: u64,
}

impl TermStreamer {
    /// The system size.
    pub closed spec fn size(&self) -> u64 {
        self.system_size
    }

    /// The bytes of a key.
    pub closed spec fn stride(&self) -> u64 {
        self.key_stride
    }

    /// The records not yet read.
    pub closed spec fn left(&self) -> u64 {
        self.remaining
    }

    /// Reads the header, the first 24 bytes of a term file.
    pub fn open(header: &[u8]) -> (r: Result<Self, TermFileError>)
        ensures
            match r {
                Ok(s) => header@.len() >= 24 && s.left() == word_at(header@, 0) && s.stride()
                    == word_at(header@, 8) && s.size() == word_at(header@, 16),
                Err(e) => header@.len() < 24 && e == TermFileError::EndsEarly,
            },
    {
        if header.len() < 24 {
            return Err(TermFileError::EndsEarly);
        }
        Ok(
            TermStreamer {
                remaining: read_word(header, 0),
                key_stride: read_word(header, 8),
                system_size: read_word(header, 16),
            },
        )
    }

    /// The bytes of a key, if there is another record.
    pub fn next_key_len(&self) -> (r: Option<u64>)
        ensures
            r == (if self.left() == 0 {
                None
            } else {
                Some(self.stride())
            }),
    {
        if self.remaining == 0 {
            None
        } else {
            Some(self.key_stride)
        }
    }

    /// Takes the next record: a key's bytes and the eight bytes of its coefficient.
    pub fn accept<M: AbstractTerm>(&mut self, key: &[u8], coeff: &[u8]) -> (r: (M, u64))
        requires
            old(self).left() > 0,
            key@.len() == old(self).stride(),
            coeff@.len() == 8,
        ensures
            r == (M::read_from(key@, old(self).size()), bytes::spec_u64_from_le_bytes(coeff@)),
            final(self).left() == old(self).left() - 1,
            final(self).stride() == old(self).stride(),
            final(self).size() == old(self).size(),
    {
        self.remaining = self.remaining - 1;
        (M::from_bytes_vec(key, self.system_size), bytes::u64_from_le_bytes(coeff))
    }
}

/// Reading record by record gives the terms that reading the whole file gives.
pub proof fn law_streaming_matches_loading<M: AbstractTerm>(
    data: Seq<u8>,
    terms: Seq<(M, u64)>,
    opened: TermStreamer,
    at: TermStreamer,
    i: int,
    key: Seq<u8>,
    coeff: Seq<u8>,
)
    requires
        parsed::<M>(data) == Some(terms),
        opened.left() == word_at(data, 0),
        opened.stride() == word_at(data, 8),
        opened.size() == word_at(data, 16),
        0 <= i < terms.len(),
        at.left() == opened.left() - i,
        at.stride() == opened.stride(),
        at.size() == opened.size(),
        key == data.subrange(
            24 + i * (at.stride() + 8),
            24 + i * (at.stride() + 8) + at.stride(),
        ),
        coeff == data.subrange(
            24 + i * (at.stride() + 8) + at.stride(),
            24 + i * (at.stride() + 8) + at.stride() + 8,
        ),
    ensures
        at.left() > 0,
        (M::read_from(key, at.size()), bytes::spec_u64_from_le_bytes(coeff)) == terms[i],
{
}

/// A term file starts with three words, least significant byte first: the number of terms, the
/// length of a key in bytes, and the system size. Behind them come the records, one after
/// another, each the bytes of a key and then a word.
pub proof fn law_file_layout<M: AbstractTerm>(terms: Seq<(M, u64)>, i: int)
    requires
        uniform(terms),
        0 <= i < terms.len() <= u64::MAX,
        terms[0].0.bytes_of().len() <= u64::MAX,
    ensures
        ({
            let data = file_bytes(terms);
            let s = terms[0].0.bytes_of().len() as int;
            let at = 24 + i * (s + 8);
            &&& data.len() == 24 + terms.len() * (s + 8)
            &&& data.subrange(0, 8) == bytes::spec_u64_to_le_bytes(terms.len() as u64)
            &&& data.subrange(8, 16) == bytes::spec_u64_to_le_bytes(s as u64)
            &&& data.subrange(16, 24) == bytes::spec_u64_to_le_bytes(terms[0].0.size_of())
            &&& data.subrange(at, at + s) == terms[i].0.bytes_of()
            &&& data.subrange(at + s, at + s + 8) == bytes::spec_u64_to_le_bytes(terms[i].1)
        }),
{
    bytes::lemma_auto_spec_u64_to_from_le_bytes();
    let data = file_bytes(terms);
    let n = terms.len() as int;
    let s = stride_of(terms) as int;
    let body = records(terms, n);
    lemma_records(terms, n);
    lemma_inside(i, n, s);
    let at = 24 + i * (s + 8);
    assert(data.subrange(0, 8) =~= le(n as u64));
    assert(data.subrange(8, 16) =~= le(stride_of(terms)));
    assert(data.subrange(16, 24) =~= le(size_of(terms)));
    assert(data.subrange(at, at + s) =~= body.subrange(i * (s + 8), i * (s + 8) + s));
    assert(data.subrange(at + s, at + s + 8) =~= body.subrange(
        i * (s + 8) + s,
        i * (s + 8) + s + 8,
    ));
    assert(terms[i].0.bytes_of().len() == s);
}

/// A file whose stream is damaged, that ends before its header does, or that ends before its
/// last record does, is refused; any other is read, and gives as many terms as its header says.
pub proof fn law_short_files_are_refused<M: AbstractTerm>(gz: Seq<u8>, data: Seq<u8>)
    requires
        inflates_to(gz, data),
        data.len() <= usize::MAX,
    ensures
        data.len() < 24 ==> loaded::<M>(gz) == Err::<Seq<(M, u64)>, TermFileError>(
            TermFileError::EndsEarly,
        ),
        data.len() >= 24 ==> {
            let n = bytes::spec_u64_from_le_bytes(data.subrange(0, 8));
            let s = bytes::spec_u64_from_le_bytes(data.subrange(8, 16));
            if 24 + n * (s + 8) > data.len() {
                loaded::<M>(gz) == Err::<Seq<(M, u64)>, TermFileError>(TermFileError::EndsEarly)
            } else {
                loaded::<M>(gz) matches Ok(terms) && terms.len() == n
            }
        },
{
    assert(inflated(gz, 24) == Some(first(data, 24)));
    if data.len() >= 24 {
        let header = first(data, 24);
        assert(header.subrange(0, 8) =~= data.subrange(0, 8));
        assert(header.subrange(8, 16) =~= data.subrange(8, 16));
        let (n, s) = (word_at(data, 0), word_at(data, 8));
        assert(extent(header) == 24 + n * (s + 8));
        assert(0 <= n * (s + 8)) by (nonlinear_arith);
        let all = if extent(header) <= usize::MAX {
            extent(header) as nat
        } else {
            usize::MAX as nat
        };
        assert(inflated(gz, all) == Some(first(data, all)));
        let part = first(data, all);
        assert(part.len() >= 24);
        assert(part.subrange(0, 8) =~= data.subrange(0, 8));
        assert(part.subrange(8, 16) =~= data.subrange(8, 16));
    }
}

} // verus!
