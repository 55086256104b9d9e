use agentos_kernel::gguf_loader::{
    f16_to_f32, get_scale_min_k4, GgufGtype, GgufModelLoader, GgufTensorInfo, QuantTerm, GGUF_MAGIC,
};

/// A weight multiplied out: its scales and its quant, less its minimum.
fn value(t: &QuantTerm) -> f32 {
    f32::from_bits(t.d) * t.sc as f32 * t.q as f32 - f32::from_bits(t.dmin) * t.m as f32
}

fn values(terms: &[QuantTerm]) -> Vec<f32> {
    terms.iter().map(value).collect()
}

fn runs(parts: &[(f32, usize)]) -> Vec<f32> {
    parts.iter().flat_map(|&(v, n)| vec![v; n]).collect()
}

fn decoded(bytes: &[u8], gtype: GgufGtype) -> Vec<f32> {
    match GgufModelLoader::decode_tensor(bytes, gtype) {
        Ok(terms) => values(&terms),
        Err(_) => panic!("not decoded"),
    }
}

const HALF: [u8; 2] = [0x00, 0x38];
const ONE: [u8; 2] = [0x00, 0x3C];
const SCALES: [u8; 12] = [135, 142, 213, 220, 120, 113, 42, 35, 195, 90, 225, 120];

#[test]
fn half_precision_numbers_are_widened() {
    assert_eq!(f32::from_bits(f16_to_f32(0x0000)), 0.0);
    assert_eq!(f32::from_bits(f16_to_f32(0xC000)), -2.0);
    assert_eq!(f32::from_bits(f16_to_f32(0x3C00)), 1.0);
    assert_eq!(f32::from_bits(f16_to_f32(0x3800)), 0.5);
    assert_eq!(f16_to_f32(0x0001), 103 << 23);
    assert_eq!(f16_to_f32(0x8000), 0x8000_0000);
    assert!(f32::from_bits(f16_to_f32(0x7C00)).is_infinite());
    assert!(f32::from_bits(f16_to_f32(0x7C01)).is_nan());
}

#[test]
fn widening_keeps_every_finite_value() {
    for bits in 0..=0xFFFFu16 {
        let e = (bits >> 10) & 31;
        if e == 31 {
            continue;
        }
        let m = (bits & 0x3FF) as f64;
        let magnitude = if e == 0 {
            m * 2f64.powi(-24)
        } else {
            (1024.0 + m) * 2f64.powi(e as i32 - 25)
        };
        let expected = if bits >= 0x8000 { -magnitude } else { magnitude };
        assert_eq!(f32::from_bits(f16_to_f32(bits)) as f64, expected);
    }
}

#[test]
fn scales_and_minima_are_unpacked() {
    let sc: [u8; 8] = [7, 14, 21, 28, 35, 42, 49, 56];
    let m: [u8; 8] = [56, 49, 42, 35, 28, 21, 14, 7];
    for j in 0..8 {
        assert_eq!(get_scale_min_k4(j, &SCALES), (sc[j], m[j]));
    }
}

#[test]
fn types_by_number() {
    let known: [(u32, GgufGtype); 11] = [
        (0, GgufGtype::F32),
        (1, GgufGtype::F16),
        (2, GgufGtype::Q4_0),
        (3, GgufGtype::Q4_1),
        (8, GgufGtype::Q8_0),
        (10, GgufGtype::Q2_K),
        (11, GgufGtype::Q3_K),
        (12, GgufGtype::Q4_K),
        (13, GgufGtype::Q5_K),
        (14, GgufGtype::Q6_K),
        (15, GgufGtype::Q8_K),
    ];
    for (raw, gtype) in known {
        assert_eq!(GgufGtype::from_u32(raw), Ok(gtype));
    }
    for raw in [4, 5, 6, 7, 9, 16, u32::MAX] {
        assert_eq!(GgufGtype::from_u32(raw), Err("GGUF: unknown tensor gtype"));
    }
}

#[test]
fn headers() {
    let mut bytes = Vec::new();
    bytes.extend_from_slice(&GGUF_MAGIC.to_le_bytes());
    bytes.extend_from_slice(&3u32.to_le_bytes());
    bytes.extend_from_slice(&2u64.to_le_bytes());
    bytes.extend_from_slice(&5u64.to_le_bytes());
    let header = match GgufModelLoader::parse_header(&bytes) {
        Ok(h) => h,
        Err(_) => panic!("refused"),
    };
    assert_eq!(header.magic, GGUF_MAGIC);
    assert_eq!(header.version, 3);
    assert_eq!(header.tensor_count, 2);
    assert_eq!(header.kv_count, 5);
    assert_eq!(header.architecture, "llama");
    assert_eq!(header.context_length, 4096);
    assert_eq!(header.embedding_length, 2048);
    assert_eq!(
        GgufModelLoader::parse_header(&bytes[..23]).err(),
        Some("Header buffer too small")
    );
    bytes[0] = 0;
    assert_eq!(
        GgufModelLoader::parse_header(&bytes).err(),
        Some("Invalid GGUF Magic Header (expected 'GGUF')")
    );
}

fn entry(name: &[u8], dims: [u32; 2], gtype: u32, offset: u32) -> Vec<u8> {
    let mut b = Vec::new();
    b.extend_from_slice(&(name.len() as u32).to_le_bytes());
    b.extend_from_slice(name);
    b.extend_from_slice(&dims[0].to_le_bytes());
    b.extend_from_slice(&dims[1].to_le_bytes());
    b.extend_from_slice(&gtype.to_le_bytes());
    b.extend_from_slice(&offset.to_le_bytes());
    b
}

#[test]
fn a_tensor_entry() {
    let b = entry(b"weights", [4, 4], 0, 59);
    let (info, consumed) = match GgufTensorInfo::parse(&b) {
        Ok(r) => r,
        Err(_) => panic!("refused"),
    };
    assert_eq!(info.name, "weights");
    assert_eq!(info.dimensions, [4, 4]);
    assert_eq!(info.gtype, GgufGtype::F32);
    assert_eq!(info.offset, 59);
    assert_eq!(consumed, 27);
}

#[test]
fn tensor_entries_that_are_refused() {
    let whole = entry(b"weights", [4, 4], 0, 59);
    assert_eq!(
        GgufTensorInfo::parse(&whole[..3]).err(),
        Some("GGUF: tensor-info buffer too small for name length")
    );
    assert_eq!(
        GgufTensorInfo::parse(&whole[..whole.len() - 1]).err(),
        Some("GGUF: tensor-info buffer too small for name + fields")
    );
    assert_eq!(
        GgufTensorInfo::parse(&entry(&[0xC3, 0x28], [1, 1], 0, 0)).err(),
        Some("GGUF: tensor name is not valid UTF-8")
    );
    assert_eq!(
        GgufTensorInfo::parse(&entry(b"w", [1, 1], 7, 0)).err(),
        Some("GGUF: unknown tensor gtype")
    );
    assert_eq!(
        GgufTensorInfo::parse(&[0xFF, 0xFF, 0xFF, 0xFF, 0]).err(),
        Some("GGUF: tensor-info buffer too small for name + fields")
    );
}

#[test]
fn names_beyond_ascii() {
    let name = "gewichte-\u{00E4}\u{2192}\u{1F600}";
    match GgufTensorInfo::parse(&entry(name.as_bytes(), [1, 1], 0, 0)) {
        Ok((info, _)) => assert_eq!(info.name, name),
        Err(_) => panic!("refused"),
    }
}

#[test]
fn a_table_of_two_tensors() {
    let mut b = entry(b"weights", [2, 2], 0, 0);
    let first = b.len();
    b.extend(entry(b"scale_bias", [32, 1], 8, 0));
    let table = b.len();
    b[23..27].copy_from_slice(&(table as u32).to_le_bytes());
    let data: [f32; 4] = [1.0, -2.0, 3.5, 0.0];
    for v in data {
        b.extend_from_slice(&v.to_le_bytes());
    }
    let second_data = b.len();
    b[table - 4..table].copy_from_slice(&(second_data as u32).to_le_bytes());
    b.extend_from_slice(&HALF);
    let qs: Vec<i8> = (0..32).map(|i| i - 16).collect();
    for &q in &qs {
        b.push(q as u8);
    }
    let (infos, consumed) = match GgufTensorInfo::parse_many(&b, 2) {
        Ok(r) => r,
        Err(_) => panic!("refused"),
    };
    assert_eq!(consumed, table);
    assert_eq!(infos.len(), 2);
    assert_eq!(infos[0].name, "weights");
    assert_eq!(infos[0].dimensions, [2, 2]);
    assert_eq!(infos[0].offset, table);
    assert_eq!(infos[1].name, "scale_bias");
    assert_eq!(infos[1].dimensions, [32, 1]);
    assert_eq!(infos[1].gtype, GgufGtype::Q8_0);
    assert_eq!(infos[1].offset, second_data);
    assert_eq!(decoded(&b[table..table + 16], infos[0].gtype), data.to_vec());
    let expected: Vec<f32> = qs.iter().map(|&v| v as f32 * 0.5).collect();
    assert_eq!(decoded(&b[second_data..second_data + 34], infos[1].gtype), expected);
    assert!(GgufTensorInfo::parse_many(&b[..first], 2).is_err());
    assert_eq!(GgufTensorInfo::parse_many(&b, 0).map(|r| r.1).ok(), Some(0));
}

#[test]
fn weights_in_single_precision() {
    let weights: [f32; 5] = [0.5, -0.2, 0.8, 0.1, 2.5];
    let mut b = Vec::new();
    for w in weights {
        b.extend_from_slice(&w.to_le_bytes());
    }
    let bits = GgufModelLoader::decode_f32_le(&b);
    assert_eq!(bits, weights.iter().map(|w| w.to_bits()).collect::<Vec<u32>>());
    assert_eq!(decoded(&b, GgufGtype::F32), weights.to_vec());
    b.push(1);
    assert_eq!(GgufModelLoader::decode_f32_le(&b).len(), 5);
}

#[test]
fn weights_in_half_precision() {
    let b = [0x00, 0x3C, 0x00, 0xC0, 0x00, 0x38];
    assert_eq!(decoded(&b, GgufGtype::F16), vec![1.0, -2.0, 0.5]);
}

#[test]
fn weights_of_q8_0() {
    let mut b = HALF.to_vec();
    let qs: Vec<i8> = (0..32).map(|i| i - 16).collect();
    b.extend(qs.iter().map(|&q| q as u8));
    let expected: Vec<f32> = qs.iter().map(|&q| q as f32 * 0.5).collect();
    assert_eq!(values(&GgufModelLoader::decode_q8_0(&b)), expected);
    assert_eq!(decoded(&b, GgufGtype::Q8_0), expected);
    b.extend_from_slice(&[0; 33]);
    assert_eq!(GgufModelLoader::decode_q8_0(&b).len(), 32);
}

#[test]
fn weights_of_q4_0() {
    let mut b = HALF.to_vec();
    let mut expected = vec![0f32; 32];
    for j in 0..16usize {
        b.push((j | (15 - j) << 4) as u8);
        expected[j] = (j as f32 - 8.0) * 0.5;
        expected[j + 16] = ((15 - j) as f32 - 8.0) * 0.5;
    }
    assert_eq!(decoded(&b, GgufGtype::Q4_0), expected);
    assert_eq!(values(&GgufModelLoader::decode_q4_0(&b)), expected);
}

#[test]
fn weights_of_q4_1() {
    let mut b = HALF.to_vec();
    b.extend_from_slice(&ONE);
    let mut expected = vec![0f32; 32];
    for j in 0..16usize {
        b.push((j | (15 - j) << 4) as u8);
        expected[j] = j as f32 * 0.5 + 1.0;
        expected[j + 16] = (15 - j) as f32 * 0.5 + 1.0;
    }
    assert_eq!(values(&GgufModelLoader::decode_q4_1(&b)), expected);
    assert_eq!(decoded(&b, GgufGtype::Q4_1), expected);
}

#[test]
fn weights_of_q4_k() {
    let mut b = ONE.to_vec();
    b.extend_from_slice(&ONE);
    b.extend_from_slice(&SCALES);
    for byte in [0x00u8, 0xFF, 0x73, 0x21] {
        b.extend_from_slice(&[byte; 32]);
    }
    let expected = runs(&[
        (-56.0, 32),
        (-49.0, 32),
        (273.0, 32),
        (385.0, 32),
        (77.0, 32),
        (273.0, 32),
        (35.0, 32),
        (105.0, 32),
    ]);
    assert_eq!(decoded(&b, GgufGtype::Q4_K), expected);
}

#[test]
fn weights_of_q5_k() {
    let mut b = ONE.to_vec();
    b.extend_from_slice(&ONE);
    b.extend_from_slice(&SCALES);
    b.extend_from_slice(&[0xAA; 32]);
    for byte in [0xABu8, 0xCD, 0xEF, 0x12] {
        b.extend_from_slice(&[byte; 32]);
    }
    let expected = runs(&[
        (21.0, 32),
        (315.0, 32),
        (231.0, 32),
        (749.0, 32),
        (497.0, 32),
        (1239.0, 32),
        (84.0, 32),
        (945.0, 32),
    ]);
    assert_eq!(decoded(&b, GgufGtype::Q5_K), expected);
}

#[test]
fn weights_of_q6_k() {
    let mut b = Vec::new();
    for _ in 0..2 {
        b.extend_from_slice(&[0xAB; 32]);
        b.extend_from_slice(&[0xCD; 32]);
    }
    b.extend_from_slice(&[0xE4; 64]);
    for _ in 0..2 {
        b.extend_from_slice(&[2, 3, 5, 7, 11, 13, 17, 19]);
    }
    b.extend_from_slice(&ONE);
    let half = [
        (-42.0, 16),
        (-63.0, 16),
        (-15.0, 16),
        (-21.0, 16),
        (110.0, 16),
        (130.0, 16),
        (476.0, 16),
        (532.0, 16),
    ];
    let mut expected = runs(&half);
    expected.extend(runs(&half));
    assert_eq!(decoded(&b, GgufGtype::Q6_K), expected);
}

#[test]
fn weights_of_q3_k() {
    let mut b = vec![0xAA; 16];
    b.extend_from_slice(&[0x55; 16]);
    b.extend_from_slice(&[0xE4; 64]);
    b.extend_from_slice(&[
        0x33, 0x77, 0xBB, 0xFF, 0x33, 0x77, 0xBB, 0xFF, 0xE4, 0xE4, 0xE4, 0xE4,
    ]);
    b.extend_from_slice(&ONE);
    let expected: Vec<(f32, usize)> = [
        116.0, 0.0, -21.0, 51.0, 26.0, -18.0, -15.0, 1.0, -12.0, 0.0, 11.0, -45.0, -38.0, 46.0,
        81.0, -31.0,
    ]
    .iter()
    .map(|&v| (v, 16))
    .collect();
    assert_eq!(decoded(&b, GgufGtype::Q3_K), runs(&expected));
}

#[test]
fn weights_of_q2_k() {
    let mut b: Vec<u8> = (0..16u8).map(|i| i | (15 - i) << 4).collect();
    b.extend_from_slice(&[0xE4; 64]);
    b.extend_from_slice(&ONE);
    b.extend_from_slice(&ONE);
    let expected: Vec<(f32, usize)> = [
        -15.0, -14.0, -11.0, -9.0, -3.0, 0.0, 9.0, 13.0, -7.0, -6.0, 5.0, 7.0, 21.0, 24.0, 41.0,
        45.0,
    ]
    .iter()
    .map(|&v| (v, 16))
    .collect();
    assert_eq!(decoded(&b, GgufGtype::Q2_K), runs(&expected));
}

#[test]
fn weights_of_q8_k() {
    let mut b = 2.0f32.to_le_bytes().to_vec();
    b.extend(0..=255u8);
    b.extend_from_slice(&[0; 32]);
    let expected: Vec<f32> = (0..=255u8).map(|i| 2.0 * (i as i8) as f32).collect();
    assert_eq!(decoded(&b, GgufGtype::Q8_K), expected);
}
