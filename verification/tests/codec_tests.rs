use orso::codec::{Codec, DecodeError, F64Codec, I64Codec};
use std::time::Instant;
use rand::{rngs::StdRng, RngExt, SeedableRng};

#[test]
fn roundtrip_basic() {
    let c = I64Codec::default();
    let v: Vec<i64> = (0..10_000).map(|i| i as i64).collect();
    let blob = c.compress(&v).unwrap();
    let back = c.decompress(&blob).unwrap();
    assert_eq!(v, back);
}

#[test]
fn roundtrip_parallel() {
    let c = I64Codec::default();
    let arrays: Vec<Vec<i64>> = (0..64)
        .map(|k| (0..8192).map(|i| (i as i64) + k).collect())
        .collect();
    let blobs = c.compress_many(&arrays).unwrap();
    let back = c.decompress_many(&blobs).unwrap();
    assert_eq!(arrays, back);
}

#[test]
fn randomish_ok() {
    let mut rng = StdRng::seed_from_u64(42);
    let v: Vec<i64> = (0..50_000).map(|_| rng.random::<i64>() >> 3).collect();
    let c = I64Codec::default();
    let blob = c.compress(&v).unwrap();
    let back = c.decompress(&blob).unwrap();
    assert_eq!(v, back);
}

fn ema_like_i64(len: usize) -> Vec<i64> {
    let mut out = Vec::with_capacity(len);
    // start around 117_000.xxx (scaled by 1e6)
    let mut ema: f64 = 117_100.0;
    let alpha = 2.0 / (9.0 + 1.0); // like EMA(9)
                                   // deterministic "price" signal: slow trend + small oscillations
    for i in 0..len {
        let t = i as f64;
        let price = 117_000.0
        + 0.05 * t                              // tiny trend
        + (t / 37.0).sin() * 30.0              // slow sine wiggle
        + ((t / 5.0).sin() * 3.0).floor(); // tiny step noise
        ema = alpha * price + (1.0 - alpha) * ema;
        let scaled = (ema * 1_000_000.0).round() as i64;
        out.push(scaled);
    }
    out
}

#[test]
fn report_metrics_ema_like_sizes() {
    let codec = I64Codec::default();

    for &n in &[100usize, 1_000usize, 100_000usize] {
        let data = ema_like_i64(n);

        // compress
        let t0 = Instant::now();
        let blob = codec.compress(&data).unwrap();
        let comp_ms = t0.elapsed().as_secs_f64() * 1000.0;

        // decompress
        let t1 = Instant::now();
        let back = codec.decompress(&blob).unwrap();
        let decomp_ms = t1.elapsed().as_secs_f64() * 1000.0;

        assert_eq!(data, back, "round-trip failed for n={}", n);

        let raw_bytes = data.len() * 8;
        let comp_bytes = blob.len();
        let ratio = (raw_bytes as f64) / (comp_bytes.max(1) as f64);

        println!(
            "n={:<7} raw={:<10}B  comp={:<10}B  ratio={:>5.2}x  compress={:>6.3} ms  decompress={:>6.3} ms",
            n, raw_bytes, comp_bytes, ratio, comp_ms, decomp_ms
        );
    }
}

#[test]
fn empty_sequence_is_empty_blob() {
    let c = I64Codec::default();
    let blob = c.compress(&Vec::new()).unwrap();
    assert_eq!(blob.len(), 0);
    let back = c.decompress(&blob).unwrap();
    assert_eq!(back.len(), 0);
    // the empty blob decodes to the empty sequence even on a fresh codec
    let back2 = c.decompress(&[]).unwrap();
    assert_eq!(back2, Vec::<i64>::new());
}

#[test]
fn envelope_layout_and_magic() {
    let c = I64Codec::default();
    assert!(matches!(c.codec, Codec::Lz4));
    let v: Vec<i64> = vec![5, 6, 7];
    let blob = c.compress(&v).unwrap();
    assert!(blob.len() >= 14);
    // magic "ORSO", version 1, scheme 1, count 3 little-endian
    assert_eq!(&blob[0..4], &[0x4f, 0x52, 0x53, 0x4f]);
    assert_eq!(blob[4], 1);
    assert_eq!(blob[5], 1);
    assert_eq!(&blob[6..14], &[3, 0, 0, 0, 0, 0, 0, 0]);
    println!("envelope hex: {}", hex::encode(&blob[0..14]));
}

#[test]
fn corruption_is_detected() {
    let c = I64Codec::default();
    let v: Vec<i64> = (0..100).collect();
    let blob = c.compress(&v).unwrap();

    // truncation below the envelope length
    assert_eq!(c.decompress(&blob[0..13]), Err(DecodeError::TooShort));
    assert_eq!(c.decompress(&blob[0..1]), Err(DecodeError::TooShort));

    // flipped magic
    let mut bad = blob.clone();
    bad[0] ^= 0xff;
    assert_eq!(c.decompress(&bad), Err(DecodeError::BadMagic));

    // unsupported version
    let mut bad = blob.clone();
    bad[4] = 2;
    assert_eq!(c.decompress(&bad), Err(DecodeError::BadVersion));

    // unsupported scheme
    let mut bad = blob.clone();
    bad[5] = 9;
    assert_eq!(c.decompress(&bad), Err(DecodeError::UnsupportedScheme));

    // corrupt block payload
    let mut bad = blob.clone();
    let last = bad.len() - 1;
    bad.truncate(last);
    assert!(c.decompress(&bad).is_err());
}

#[test]
fn batch_with_corrupt_blob_fails() {
    let c = I64Codec::default();
    let arrays: Vec<Vec<i64>> = vec![vec![1, 2, 3], vec![4, 5, 6]];
    let mut blobs = c.compress_many(&arrays).unwrap();
    blobs[1][0] ^= 0xff;
    assert!(c.decompress_many(&blobs).is_err());
}

#[test]
fn float_bits_roundtrip_exact() {
    let c = F64Codec::default();
    let vals: Vec<f64> = (0..5000)
        .map(|i| (i as f64) * 0.1 - 17.25)
        .chain([0.0, -0.0, f64::INFINITY, f64::NEG_INFINITY, f64::MIN, f64::MAX, 1e-300])
        .collect();
    let bits: Vec<u64> = vals.iter().map(|x| x.to_bits()).collect();
    let blob = c.compress_bits(&bits).unwrap();
    let back = c.decompress_bits(&blob).unwrap();
    assert_eq!(bits, back);
    for (orig, b) in vals.iter().zip(back.iter()) {
        assert_eq!(orig.to_bits(), *b);
    }
}

#[test]
fn u64_roundtrip() {
    let c = I64Codec::default();
    let v: Vec<u64> = (0..10_000).map(|i| (i as u64) * 200).chain([u64::MAX, 0]).collect();
    let blob = c.compress_u64(&v).unwrap();
    let back = c.decompress_u64(&blob).unwrap();
    assert_eq!(v, back);
}

#[test]
fn extreme_values_roundtrip() {
    let c = I64Codec::default();
    let v: Vec<i64> = vec![i64::MIN, i64::MAX, 0, -1, 1, i64::MIN, i64::MAX];
    let blob = c.compress(&v).unwrap();
    let back = c.decompress(&blob).unwrap();
    assert_eq!(v, back);
}

#[test]
fn varint_stream_roundtrip() {
    let mut buf: Vec<u8> = Vec::new();
    let vals: Vec<u64> = vec![0, 1, 127, 128, 300, u64::MAX, 1 << 35];
    for &v in vals.iter() {
        orso::varint::write_varint(&mut buf, v);
    }
    let mut pos = 0usize;
    let mut got: Vec<u64> = Vec::new();
    while pos < buf.len() {
        let (v, newpos) = orso::varint::read_varint(&buf, pos).unwrap();
        got.push(v);
        pos = newpos;
    }
    assert_eq!(vals, got);
}

#[test]
fn zigzag_values() {
    assert_eq!(orso::varint::zigzag(0), 0);
    assert_eq!(orso::varint::zigzag(-1), 1);
    assert_eq!(orso::varint::zigzag(1), 2);
    assert_eq!(orso::varint::zigzag(-2), 3);
    assert_eq!(orso::varint::unzigzag(3), -2);
    assert_eq!(orso::varint::unzigzag(orso::varint::zigzag(i64::MIN)), i64::MIN);
    assert_eq!(orso::varint::unzigzag(orso::varint::zigzag(i64::MAX)), i64::MAX);
}
