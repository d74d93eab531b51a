use rand::distr::{Distribution, StandardUniform};
use shrewd::shrewd::compressors::SKETCH_PRECISION;
use shrewd::shrewd::sizes::{DataSize, HyperLogLog, IndexSize};
use shrewd::shrewd::{Compressor, DictionaryCompressor, OffsetCompressor, Shrewd, SizeCompressor};
use std::mem::{size_of, size_of_val};

/// The HyperLogLog cardinality estimate, computed in floating point as the router expects.
fn estimate(sketch: &HyperLogLog) -> usize {
    let registers = sketch.registers();
    let m = registers.len() as f64;
    let alpha = 0.7213 / (1.0 + 1.079 / m);
    let sum: f64 = registers.iter().map(|&r| 2f64.powi(-(r as i32))).sum();
    let raw = alpha * m * m / sum;
    let final_est = if raw <= 2.5 * m {
        let zeros = registers.iter().filter(|&&r| r == 0).count();
        if zeros != 0 {
            m * (m / zeros as f64).ln()
        } else {
            raw
        }
    } else {
        raw
    };
    (final_est.round() as usize).max(1)
}

/// Packs `v` the way the full router does: sketch, estimate, route.
fn pack(v: Vec<i64>) -> Shrewd {
    let sketch = Shrewd::sketch(&v);
    let unique = estimate(&sketch);
    Shrewd::pack_with_estimate(v, unique)
}

fn generate_random_vecs(size: usize) -> (Vec<i64>, Vec<i64>, Vec<i64>, Vec<i64>) {
    let mut rng = rand::rng();
    let random_i8s: Vec<i8> = StandardUniform.sample_iter(&mut rng).take(size).collect();
    let random_i8s: Vec<i64> = random_i8s.into_iter().map(i64::from).collect();

    let random_i16s: Vec<i16> = StandardUniform.sample_iter(&mut rng).take(size).collect();
    let random_i16s: Vec<i64> = random_i16s.into_iter().map(i64::from).collect();

    let random_i32s: Vec<i32> = StandardUniform.sample_iter(&mut rng).take(size).collect();
    let random_i32s: Vec<i64> = random_i32s.into_iter().map(i64::from).collect();

    let random_i64s: Vec<i64> = StandardUniform.sample_iter(&mut rng).take(size).collect();

    (random_i8s, random_i16s, random_i32s, random_i64s)
}

#[test]
fn test_size_compressor_basic_fields() {
    let (random_i8s, random_i16s, random_i32s, random_i64s) = generate_random_vecs(1000);

    let compressor = SizeCompressor::pack(random_i8s.clone());
    assert_eq!(compressor.data_size(), DataSize::I8);
    assert_eq!(compressor.length(), random_i8s.len());
    assert_eq!(compressor.size(), size_of_val(&compressor) + (random_i8s.len() * DataSize::I8.byte_width()));

    let compressor = SizeCompressor::pack(random_i16s.clone());
    assert_eq!(compressor.data_size(), DataSize::I16);
    assert_eq!(compressor.length(), random_i16s.len());
    assert_eq!(compressor.size(), size_of_val(&compressor) + (random_i16s.len() * DataSize::I16.byte_width()));

    let compressor = SizeCompressor::pack(random_i32s.clone());
    assert_eq!(compressor.data_size(), DataSize::I32);
    assert_eq!(compressor.length(), random_i32s.len());
    assert_eq!(compressor.size(), size_of_val(&compressor) + (random_i32s.len() * DataSize::I32.byte_width()));

    let compressor = SizeCompressor::pack(random_i64s.clone());
    assert_eq!(compressor.data_size(), DataSize::I64);
    assert_eq!(compressor.length(), random_i64s.len());
    assert_eq!(compressor.size(), size_of_val(&compressor) + (random_i64s.len() * DataSize::I64.byte_width()));
}

#[test]
fn test_offset_compressor_basic_fields() {
    let (random_i8s, random_i16s, random_i32s, random_i64s) = generate_random_vecs(10);

    let compressor = OffsetCompressor::pack(random_i8s.clone());
    println!("i8 vec: {:?}", random_i8s);
    assert_eq!(compressor.data_size(), DataSize::I8);
    assert_eq!(compressor.length(), random_i8s.len());

    let compressor = OffsetCompressor::pack(random_i16s.clone());
    println!("i16 vec: {:?}", random_i16s);
    assert_eq!(compressor.data_size(), DataSize::I16);
    assert_eq!(compressor.length(), random_i16s.len());

    let compressor = OffsetCompressor::pack(random_i32s.clone());
    println!("i32 vec: {:?}", random_i32s);
    assert_eq!(compressor.data_size(), DataSize::I32);
    assert_eq!(compressor.length(), random_i32s.len());

    let compressor = OffsetCompressor::pack(random_i64s.clone());
    println!("i64 vec: {:?}", random_i64s);
    assert_eq!(compressor.data_size(), DataSize::I64);
    assert_eq!(compressor.length(), random_i64s.len());
}

#[test]
fn test_dictionary_compressr_basic_fields() {
    let data = vec![
        i64::MIN,
        i64::MAX,
        i64::MIN,
        i64::MAX,
        i64::MIN,
        i64::MAX,
        i64::MIN,
        i64::MAX,
        i64::MIN,
        i64::MIN,
        i64::MAX,
        i64::MAX,
    ];
    let compressor = DictionaryCompressor::pack(data.clone());
    assert_eq!(compressor.index_size(), IndexSize::U8); // the number of unique values is of size i8 (specifically - 2 in this case)
    assert_eq!(compressor.unique_values().len(), 2);
    assert_eq!(
        IndexSize::calculate(compressor.unique_values().len() - 1),
        compressor.index_size()
    ); // validating the above statement
    assert_eq!(compressor.length(), data.len())
}

#[test]
fn test_size_compressor_memory_footprint() {
    let data = vec![1, 2, 3, 4, 5, 6, 7, 8, 9, 10];
    let uncompressed_data_memory_footprint =
        size_of_val(&data) + (data.len() * DataSize::I64.byte_width());
    let compressor = SizeCompressor::pack(data.clone());
    let compressed_data_memory_footprint = compressor.size();
    println!("data size (stack + heap): {compressed_data_memory_footprint}");
    assert_eq!(
        compressed_data_memory_footprint,
        size_of::<SizeCompressor>() + data.len() * (DataSize::I8.byte_width())
    );
    assert!(compressed_data_memory_footprint < uncompressed_data_memory_footprint);
}

#[test]
fn test_offset_compressor_memory_footprint() {
    let data = vec![1, 2, 3, 4, 5, 6, 7, 8, 9, 10];
    let uncompressed_data_memory_footprint =
        size_of_val(&data) + (data.len() * DataSize::I64.byte_width());
    let compressor = OffsetCompressor::pack(data.clone());
    let compressed_data_memory_footprint = compressor.size();
    assert_eq!(
        compressed_data_memory_footprint,
        size_of::<OffsetCompressor>() + 10
    );
    assert!(compressed_data_memory_footprint < uncompressed_data_memory_footprint);
}

#[test]
fn test_dictionary_compressor_memory_footprint() {
    let data = vec![
        i64::MIN,
        i64::MAX,
        i64::MIN,
        i64::MAX,
        i64::MIN,
        i64::MAX,
        i64::MIN,
        i64::MAX,
        i64::MIN,
        i64::MIN,
        i64::MAX,
        i64::MAX,
    ];
    let compressor = DictionaryCompressor::pack(data.clone());
    let compressed_data_memory_footprint = compressor.size();
    assert_eq!(
        compressed_data_memory_footprint,
        size_of::<DictionaryCompressor>() + 12 + (2 * DataSize::I64.byte_width())
    );
    let uncompressed_data_memory_footprint = data.len() * DataSize::I64.byte_width();
    assert!(compressed_data_memory_footprint < uncompressed_data_memory_footprint);
}

#[test]
fn test_compressor_get() {
    let (random_i8s, random_i16s, random_i32s, random_i64s) = generate_random_vecs(2000);

    let i8s_size_compressor = SizeCompressor::pack(random_i8s.clone());
    let i8s_offset_compressor = OffsetCompressor::pack(random_i8s.clone());
    let i8s_dictionary_compressor = DictionaryCompressor::pack(random_i8s.clone());
    for (index, value) in random_i8s.into_iter().enumerate() {
        assert_eq!(i8s_size_compressor.get(index), Some(value));
        assert_eq!(i8s_offset_compressor.get(index), Some(value));
        assert_eq!(i8s_dictionary_compressor.get(index), Some(value));
    }

    let i16s_size_compressor = SizeCompressor::pack(random_i16s.clone());
    let i16s_offset_compressor = OffsetCompressor::pack(random_i16s.clone());
    let i16s_dictionary_compressor = DictionaryCompressor::pack(random_i16s.clone());
    for (index, value) in random_i16s.into_iter().enumerate() {
        assert_eq!(i16s_size_compressor.get(index), Some(value));
        assert_eq!(i16s_offset_compressor.get(index), Some(value));
        assert_eq!(i16s_dictionary_compressor.get(index), Some(value));
    }

    let i32s_size_compressor = SizeCompressor::pack(random_i32s.clone());
    let i32s_offset_compressor = OffsetCompressor::pack(random_i32s.clone());
    let i32s_dictionary_compressor = DictionaryCompressor::pack(random_i32s.clone());
    for (index, value) in random_i32s.into_iter().enumerate() {
        assert_eq!(i32s_size_compressor.get(index), Some(value));
        assert_eq!(i32s_offset_compressor.get(index), Some(value));
        assert_eq!(i32s_dictionary_compressor.get(index), Some(value));
    }

    let i64s_size_compressor = SizeCompressor::pack(random_i64s.clone());
    let i64s_offset_compressor = OffsetCompressor::pack(random_i64s.clone());
    let i64s_dictionary_compressor = DictionaryCompressor::pack(random_i64s.clone());
    for (index, value) in random_i64s.into_iter().enumerate() {
        assert_eq!(i64s_size_compressor.get(index), Some(value));
        assert_eq!(i64s_offset_compressor.get(index), Some(value));
        assert_eq!(i64s_dictionary_compressor.get(index), Some(value));
    }
}

#[test]
fn test_compressed_vector_with_data_for_dictionary_compression() {
    let data_for_dictionary_compressor: Vec<i64> = vec![
        i32::MIN as i64,
        i32::MIN as i64,
        i32::MIN as i64,
        i32::MIN as i64,
        i32::MAX as i64,
        i32::MAX as i64,
        i32::MAX as i64,
        i32::MAX as i64,
    ];
    let compressed_vec = pack(data_for_dictionary_compressor.clone());

    assert!(
        compressed_vec.compressor_type() == "Dictionary",
        "Expected Dictionary compressor, but a different strategy was chosen!"
    );

    for index in 0..compressed_vec.length() {
        assert_eq!(
            compressed_vec.get(index),
            Some(data_for_dictionary_compressor[index])
        );
    }
}

#[test]
fn test_compressed_vector_with_data_for_offset_compression() {
    let data_for_offset_compressor: Vec<i64> = vec![
        i64::MAX - 1,
        i64::MAX - 2,
        i64::MAX - 3,
        i64::MAX - 4,
        i64::MAX - 5,
        i64::MAX - 6,
        i64::MAX - 7,
        i64::MAX - 8,
        i64::MAX - 9,
    ];
    let compressed_vec = pack(data_for_offset_compressor.clone());

    assert!(
        compressed_vec.compressor_type() == "Offset",
        "Expected Offset compressor, but a different strategy was chosen!"
    );

    for index in 0..compressed_vec.length() {
        assert_eq!(compressed_vec.get(index), Some(data_for_offset_compressor[index]));
    }
}

#[test]
fn test_compressed_vector_with_data_for_size_compression() {
    let data_for_size_compression: Vec<i64> = vec![
        1,2,3,4,5,6,7,8,9,10
    ];

    let compressed_vec = pack(data_for_size_compression.clone());

    assert!(
        compressed_vec.compressor_type() == "Size",
        "Expected Size compressor, but a different strategy was chosen!"
    );

    for index in 0..compressed_vec.length() {
        assert_eq!(compressed_vec.get(index), Some(data_for_size_compression[index]));
    }
}

#[test]
fn test_midpoint_and_width() {
    let cases: [(i64, i64, i64, DataSize); 11] = [
        (5, 5, 5, DataSize::I8),
        (-128, 127, 0, DataSize::I8),
        (0, 255, 128, DataSize::I8), // rounding down to 127 would need I16
        (0, 256, 128, DataSize::I16),
        (0, u16::MAX as i64, 32768, DataSize::I16),
        (0, u16::MAX as i64 + 1, 32768, DataSize::I32),
        (0, u32::MAX as i64, 2147483648, DataSize::I32),
        (0, u32::MAX as i64 + 1, 2147483648, DataSize::I64),
        (i64::MIN, i64::MAX, 0, DataSize::I64),
        (i64::MAX - 255, i64::MAX, i64::MAX - 127, DataSize::I8),
        (i64::MIN, i64::MIN + 255, i64::MIN + 128, DataSize::I8),
    ];
    for (min_val, max_val, mid, width) in cases {
        assert_eq!(
            OffsetCompressor::midpoint_and_width(min_val, max_val),
            (mid, width),
            "min={min_val} max={max_val}"
        );
    }
}

#[test]
fn test_offset_compressor_round_trip_at_width_boundaries() {
    let bases = [i64::MIN, -1_000_000_007, -1, 0, 1, 1_000_000_007, i64::MAX];
    let cases = [
        (u8::MAX as u64, DataSize::I8),
        (u8::MAX as u64 + 1, DataSize::I16),
        (u16::MAX as u64, DataSize::I16),
        (u16::MAX as u64 + 1, DataSize::I32),
        (u32::MAX as u64, DataSize::I32),
        (u32::MAX as u64 + 1, DataSize::I64),
    ];
    for base in bases {
        for (range, width) in cases {
            // Keep min..=max inside i64 whichever end the base sits at.
            let min_val = if base > 0 { base.wrapping_sub(range as i64) } else { base };
            let max_val = min_val.wrapping_add(range as i64);
            let data = vec![max_val, min_val, min_val.wrapping_add((range / 2) as i64), max_val];
            let compressor = OffsetCompressor::pack(data.clone());
            assert_eq!(compressor.data_size(), width, "min={min_val} max={max_val}");
            for (index, &value) in data.iter().enumerate() {
                assert_eq!(compressor.get(index), Some(value), "min={min_val} max={max_val}");
            }
        }
    }

    let data = vec![i64::MIN, i64::MAX, 0, -1, 1];
    let compressor = OffsetCompressor::pack(data.clone());
    assert_eq!(compressor.data_size(), DataSize::I64);
    for (index, &value) in data.iter().enumerate() {
        assert_eq!(compressor.get(index), Some(value));
    }

    let data = vec![-42; 100];
    let compressor = OffsetCompressor::pack(data.clone());
    assert_eq!(compressor.data_size(), DataSize::I8);
    assert_eq!(compressor.length(), data.len());
    for (index, &value) in data.iter().enumerate() {
        assert_eq!(compressor.get(index), Some(value));
    }
}

#[test]
fn test_skewed_data_routes_to_offset() {
    // The mean (~49) put the 250 outlier 201 away, forcing I16; the midpoint keeps every
    // delta within I8.
    let mut data: Vec<i64> = (0..10_000i64).map(|i| (i * 37) % 100).collect();
    data.push(250);
    let compressed_vec = pack(data.clone());
    assert!(
        compressed_vec.compressor_type() == "Offset",
        "Expected Offset compressor, but got {}", compressed_vec.compressor_type()
    );
    assert_eq!(compressed_vec.size(), size_of::<Shrewd>() + data.len());
    for (index, &value) in data.iter().enumerate() {
        assert_eq!(compressed_vec.get(index), Some(value));
    }
}
