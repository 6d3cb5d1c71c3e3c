use std::io::Write;

use flate2::write::GzEncoder;
use flate2::Compression;
use propaq::basis::Phase;
use propaq::bitset::Bitset;
use propaq::term_io::{
    decode_terms, encode_terms, load_terms, save_terms, TermFileError, TermStreamer,
};
use propaq::traits::{matmul_batch, AbstractTerm};

/// A string of X factors: bit `q` stands for X on qubit `q`.
#[derive(Clone, Debug, PartialEq)]
struct Flips {
    bits: u16,
    size: u64,
}

impl AbstractTerm for Flips {
    // The law has no run-time content.
    fn read_law(self) {}

    fn weight(&self) -> u32 {
        self.bits.count_ones()
    }
    fn commutes_with(&self, other: &Self) -> bool {
        (self.bits & other.bits).count_ones() % 2 == 0
    }
    fn matmul_internal(&self, other: &Self) -> (Phase, Self) {
        (Phase::I, Flips { bits: self.bits ^ other.bits, size: self.size })
    }
    fn trace_with_fock_state(&self, fock_state: &Bitset) -> i8 {
        if self.bits == 0 && fock_state.is_zero() {
            1
        } else {
            0
        }
    }
    fn to_bytes_vec(&self) -> Vec<u8> {
        self.bits.to_le_bytes().to_vec()
    }
    fn partition_key(&self) -> u64 {
        u64::from(self.bits)
    }
    fn is_number_preserving(&self) -> bool {
        false
    }
    fn system_size(&self) -> u64 {
        self.size
    }
    fn from_bytes_vec(bytes: &[u8], system_size: u64) -> Self {
        Flips { bits: u16::from_le_bytes([bytes[0], bytes[1]]), size: system_size }
    }
}

fn flips(bits: u16) -> Flips {
    Flips { bits, size: 12 }
}

fn sample() -> Vec<(Flips, u64)> {
    (0..40u16).map(|i| (flips(i * 7), (f64::from(i) * 0.25).to_bits())).collect()
}

#[test]
fn a_saved_file_loads_as_it_was() {
    let terms = sample();
    let gz = save_terms(&terms);
    let back: Vec<(Flips, u64)> = load_terms(&gz).unwrap();
    assert_eq!(back, terms);
    assert_eq!(f64::from_bits(back[4].1), 1.0);
}

#[test]
fn a_saved_file_is_compressed() {
    let terms = sample();
    let gz = save_terms(&terms);
    assert_ne!(gz, encode_terms(&terms));
    assert_eq!(&gz[..2], &[0x1f, 0x8b], "a gzip stream starts with its magic bytes");
}

#[test]
fn an_empty_file_holds_no_terms() {
    let none: Vec<(Flips, u64)> = Vec::new();
    let back: Vec<(Flips, u64)> = load_terms(&save_terms(&none)).unwrap();
    assert!(back.is_empty());
    assert_eq!(encode_terms(&none), vec![0u8; 24]);
}

#[test]
fn the_header_records_count_stride_and_size() {
    let bytes = encode_terms(&sample());
    assert_eq!(&bytes[..8], &40u64.to_le_bytes());
    assert_eq!(&bytes[8..16], &2u64.to_le_bytes());
    assert_eq!(&bytes[16..24], &12u64.to_le_bytes());
    assert_eq!(bytes.len(), 24 + 40 * 10);
}

#[test]
fn a_short_file_ends_early() {
    let bytes = encode_terms(&sample());
    let cut: Result<Vec<(Flips, u64)>, TermFileError> = decode_terms(&bytes[..bytes.len() - 1]);
    assert_eq!(cut, Err(TermFileError::EndsEarly));
    let no_header: Result<Vec<(Flips, u64)>, TermFileError> = decode_terms(&bytes[..23]);
    assert_eq!(no_header, Err(TermFileError::EndsEarly));
    assert!(TermStreamer::open(&bytes[..23]).is_err());
}

#[test]
fn a_damaged_stream_is_told_apart_from_a_short_one() {
    let gz = save_terms(&sample());
    let cut: Result<Vec<(Flips, u64)>, TermFileError> = load_terms(&gz[..gz.len() / 2]);
    assert_eq!(cut, Err(TermFileError::Damaged));
    let junk: Result<Vec<(Flips, u64)>, TermFileError> = load_terms(&[1, 2, 3, 4]);
    assert_eq!(junk, Err(TermFileError::Damaged));
}

#[test]
fn streaming_a_file_gives_what_loading_it_gives() {
    let terms = sample();
    let bytes = encode_terms(&terms);
    let mut stream = TermStreamer::open(&bytes[..24]).unwrap();
    let mut at = 24;
    let mut got: Vec<(Flips, u64)> = Vec::new();
    while let Some(n) = stream.next_key_len() {
        let n = n as usize;
        got.push(stream.accept(&bytes[at..at + n], &bytes[at + n..at + n + 8]));
        at += n + 8;
    }
    assert_eq!(got, terms);
}

#[test]
fn a_batch_of_products_skips_the_terms_that_commute() {
    let gen = flips(0b11);
    let terms = [flips(0b01), flips(0b11), flips(0b10)];
    let refs: Vec<&Flips> = terms.iter().collect();
    let mut out: Vec<(usize, Phase, Flips)> = Vec::new();
    matmul_batch(&gen, &refs, &mut out);
    assert_eq!(out, vec![(0, Phase::I, flips(0b10)), (2, Phase::I, flips(0b01))]);
}

fn gzipped(data: &[u8]) -> Vec<u8> {
    let mut enc = GzEncoder::new(Vec::new(), Compression::default());
    enc.write_all(data).unwrap();
    enc.finish().unwrap()
}

/// Bytes that do not compress.
fn noise(n: usize) -> Vec<u8> {
    let mut x = 0x9E37_79B9_7F4A_7C15u64;
    (0..n)
        .map(|_| {
            x ^= x << 13;
            x ^= x >> 7;
            x ^= x << 17;
            x as u8
        })
        .collect()
}

#[test]
fn damage_behind_the_last_record_goes_unnoticed() {
    let terms: Vec<(Flips, u64)> =
        (0..20_000u16).map(|i| (flips(i), f64::from(i).to_bits())).collect();
    // A wrong checksum.
    let mut gz = save_terms(&terms);
    let last = gz.len() - 8;
    gz[last] ^= 0xff;
    let back: Vec<(Flips, u64)> = load_terms(&gz).unwrap();
    assert_eq!(back, terms);
    // Bytes behind the records, of which the end is missing.
    let mut data = encode_terms(&terms);
    data.extend(noise(200_000));
    let gz = gzipped(&data);
    let back: Vec<(Flips, u64)> = load_terms(&gz[..gz.len() - 60_000]).unwrap();
    assert_eq!(back, terms);
}

#[test]
fn a_whole_stream_with_too_few_records_ends_early() {
    let data = encode_terms(&sample());
    let short: Result<Vec<(Flips, u64)>, TermFileError> =
        load_terms(&gzipped(&data[..data.len() - 1]));
    assert_eq!(short, Err(TermFileError::EndsEarly));
    let no_header: Result<Vec<(Flips, u64)>, TermFileError> = load_terms(&gzipped(&data[..23]));
    assert_eq!(no_header, Err(TermFileError::EndsEarly));
}

#[test]
fn a_header_that_claims_more_than_fits_ends_early() {
    for (count, stride) in [(u64::MAX, u64::MAX), (u64::MAX, 2), (2, u64::MAX), (1, u64::MAX - 8)] {
        let mut data = Vec::new();
        for word in [count, stride, 12] {
            data.extend(word.to_le_bytes());
        }
        let r: Result<Vec<(Flips, u64)>, TermFileError> = load_terms(&gzipped(&data));
        assert_eq!(r, Err(TermFileError::EndsEarly));
    }
    // No record is asked for, whatever the length of a key.
    let mut data = Vec::new();
    for word in [0, u64::MAX, 12] {
        data.extend(word.to_le_bytes());
    }
    let none: Vec<(Flips, u64)> = load_terms(&gzipped(&data)).unwrap();
    assert!(none.is_empty());
}
