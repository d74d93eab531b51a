use shrewd::shrewd::sizes::{DataSize, HyperLogLog, IndexSize};

#[test]
fn test_calculate_data_size() {
    assert_eq!(DataSize::calculate(0), DataSize::I8);
    assert_eq!(DataSize::calculate(-100), DataSize::I8);
    assert_eq!(DataSize::calculate(100), DataSize::I8);
    assert_eq!(DataSize::calculate(i8::MIN as i64), DataSize::I8);
    assert_eq!(DataSize::calculate(i8::MAX as i64), DataSize::I8);

    assert_eq!(DataSize::calculate(-500), DataSize::I16);
    assert_eq!(DataSize::calculate(500), DataSize::I16);
    assert_eq!(DataSize::calculate(i16::MIN as i64), DataSize::I16);
    assert_eq!(DataSize::calculate(i16::MAX as i64), DataSize::I16);

    assert_eq!(DataSize::calculate(5000000), DataSize::I32);
    assert_eq!(DataSize::calculate(-5000000), DataSize::I32);
    assert_eq!(DataSize::calculate(i32::MIN as i64), DataSize::I32);
    assert_eq!(DataSize::calculate(i32::MAX as i64), DataSize::I32);

    assert_eq!(DataSize::calculate(5000000000), DataSize::I64);
    assert_eq!(DataSize::calculate(-5000000000), DataSize::I64);
    assert_eq!(DataSize::calculate(i64::MIN), DataSize::I64);
    assert_eq!(DataSize::calculate(i64::MAX), DataSize::I64);
}

#[test]
fn calculate_data_size_at_width_edges() {
    assert_eq!(DataSize::calculate(i8::MIN as i64 - 1), DataSize::I16);
    assert_eq!(DataSize::calculate(i8::MAX as i64 + 1), DataSize::I16);
    assert_eq!(DataSize::calculate(i16::MIN as i64 - 1), DataSize::I32);
    assert_eq!(DataSize::calculate(i16::MAX as i64 + 1), DataSize::I32);
    assert_eq!(DataSize::calculate(i32::MIN as i64 - 1), DataSize::I64);
    assert_eq!(DataSize::calculate(i32::MAX as i64 + 1), DataSize::I64);
}

#[test]
fn calculate_index_size_at_width_edges() {
    assert_eq!(IndexSize::calculate(0), IndexSize::U8);
    assert_eq!(IndexSize::calculate(u8::MAX as usize), IndexSize::U8);
    assert_eq!(IndexSize::calculate(u8::MAX as usize + 1), IndexSize::U16);
    assert_eq!(IndexSize::calculate(u16::MAX as usize), IndexSize::U16);
    assert_eq!(IndexSize::calculate(u16::MAX as usize + 1), IndexSize::U32);
    assert_eq!(IndexSize::calculate(u32::MAX as usize), IndexSize::U32);
    assert_eq!(IndexSize::calculate(u32::MAX as usize + 1), IndexSize::U64);
    assert_eq!(IndexSize::calculate(usize::MAX), IndexSize::U64);
}

#[test]
fn shift_factor_and_byte_width_agree() {
    for size in [DataSize::I8, DataSize::I16, DataSize::I32, DataSize::I64] {
        assert_eq!(1usize << size.shift_factor(), size.byte_width());
    }
    for size in [IndexSize::U8, IndexSize::U16, IndexSize::U32, IndexSize::U64] {
        assert_eq!(1usize << size.shift_factor(), size.byte_width());
    }
    assert_eq!(DataSize::I8.byte_width(), 1);
    assert_eq!(DataSize::I16.byte_width(), 2);
    assert_eq!(DataSize::I32.byte_width(), 4);
    assert_eq!(DataSize::I64.byte_width(), 8);
    assert_eq!(IndexSize::U16.shift_factor(), 1);
    assert_eq!(IndexSize::U64.byte_width(), 8);
}

#[test]
fn widest_picks_the_larger_width() {
    assert_eq!(DataSize::I8.widest(DataSize::I32), DataSize::I32);
    assert_eq!(DataSize::I64.widest(DataSize::I16), DataSize::I64);
    assert_eq!(DataSize::I16.widest(DataSize::I16), DataSize::I16);
}

#[test]
fn mix_is_the_splitmix64_finalizer() {
    assert_eq!(HyperLogLog::mix(0), 0xe220a8397b1dcdaf);
    assert_eq!(HyperLogLog::mix(1), 0x910a2dec89025cc1);
    assert_eq!(HyperLogLog::mix(u64::MAX), 0xe4d971771b652c20);
}

#[test]
fn new_sketch_has_zeroed_registers() {
    let sketch = HyperLogLog::new(12);
    assert_eq!(sketch.precision(), 12);
    assert_eq!(sketch.registers().len(), 4096);
    assert!(sketch.registers().iter().all(|&r| r == 0));
}

#[test]
fn insert_raises_one_register_to_the_rank() {
    let mut sketch = HyperLogLog::new(12);
    sketch.insert(5);
    for (i, &r) in sketch.registers().iter().enumerate() {
        assert_eq!(r, if i == 858 { 3 } else { 0 });
    }
    // Recording a value twice changes nothing more; registers never go down.
    sketch.insert(5);
    assert_eq!(sketch.registers()[858], 3);
    assert_eq!(sketch.registers().iter().filter(|&&r| r != 0).count(), 1);
}

#[test]
fn insert_order_does_not_matter() {
    let mut a = HyperLogLog::new(4);
    let mut b = HyperLogLog::new(4);
    let values = [3, -7, 1_000_000_007, i64::MIN, i64::MAX, 0, 42];
    for &v in values.iter() {
        a.insert(v);
    }
    for &v in values.iter().rev() {
        b.insert(v);
    }
    assert_eq!(a.registers(), b.registers());
}
