use sbpf_coverage::trace::{read_insns, read_vaddrs};

fn row(first: u64, pc: u64) -> Vec<u8> {
    let mut bytes = Vec::new();
    for j in 0..11u64 {
        bytes.extend_from_slice(&(first + j).to_le_bytes());
    }
    bytes.extend_from_slice(&pc.to_le_bytes());
    bytes
}

#[test]
fn instruction_words_are_little_endian() {
    let mut data = vec![0x15, 0, 2, 0, 0, 0, 0, 0x80];
    assert_eq!(read_insns(&data), vec![0x8000_0000_0002_0015]);
    data.extend_from_slice(&7u64.to_le_bytes());
    data.extend_from_slice(&[1, 2, 3]);
    assert_eq!(read_insns(&data), vec![0x8000_0000_0002_0015, 7]);
    assert_eq!(read_insns(&[1, 2, 3, 4, 5, 6, 7]), Vec::<u64>::new());
}

#[test]
fn rows_hold_twelve_registers() {
    let mut data = row(100, 3);
    data.extend(row(200, u64::MAX));
    let (vaddrs, regs) = read_vaddrs(&data);
    assert_eq!(vaddrs, vec![24, u64::MAX - 7]);
    assert_eq!(regs.len(), 2);
    assert_eq!(regs[0], [100, 101, 102, 103, 104, 105, 106, 107, 108, 109, 110, 3]);
    assert_eq!(regs[1][0], 200);
    assert_eq!(regs[1][11], u64::MAX);
}

#[test]
fn a_cut_row_is_left_out() {
    let whole = row(1, 5);
    let mut cut = whole.clone();
    cut.extend_from_slice(&row(2, 6)[..95]);
    assert_eq!(read_vaddrs(&cut), read_vaddrs(&whole));
    assert_eq!(read_vaddrs(&whole[..95]), (Vec::new(), Vec::new()));
    assert_eq!(read_vaddrs(&[]), (Vec::new(), Vec::new()));
}
