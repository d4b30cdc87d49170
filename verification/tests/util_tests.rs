use lightswitch::util::{parse_cpu_range, summarize_address_range, AddressBlockRange, CpuListError};

#[test]
fn test_summarize_address_range() {
    assert_eq!(
        summarize_address_range(0, 100),
        vec![
            AddressBlockRange {
                addr: 0,
                prefix_len: 58
            },
            AddressBlockRange {
                addr: 64,
                prefix_len: 59
            },
            AddressBlockRange {
                addr: 96,
                prefix_len: 62
            },
            AddressBlockRange {
                addr: 100,
                prefix_len: 64
            }
        ]
    );
}

#[test]
fn summarize_single_address() {
    assert_eq!(
        summarize_address_range(5, 5),
        vec![AddressBlockRange { addr: 5, prefix_len: 64 }]
    );
}

#[test]
fn summarize_top_of_address_space() {
    let blocks = summarize_address_range(u64::MAX - 3, u64::MAX);
    assert_eq!(
        blocks,
        vec![AddressBlockRange { addr: u64::MAX - 3, prefix_len: 62 }]
    );
}

#[test]
fn summarize_blocks_tile_the_interval() {
    let low: u64 = 0x7f7428ea8000;
    let high: u64 = 0x7f7428f50000 - 1;
    let blocks = summarize_address_range(low, high);
    let mut curr: u128 = low as u128;
    for b in &blocks {
        assert!(b.prefix_len >= 1 && b.prefix_len <= 64);
        assert_eq!(b.addr as u128, curr);
        let span: u128 = 1u128 << (64 - b.prefix_len);
        assert_eq!((b.addr as u128) % span, 0);
        curr += span;
    }
    assert_eq!(curr, high as u128 + 1);
}

#[test]
fn cpu_list_single() {
    let cpus = parse_cpu_range(&b"0\n".to_vec()).unwrap();
    assert_eq!(cpus, vec![0]);
}

#[test]
fn cpu_list_range() {
    let cpus = parse_cpu_range(&b"0-7\n".to_vec()).unwrap();
    assert_eq!(cpus, (0..=7).collect::<Vec<_>>());
}

#[test]
fn cpu_list_two_ranges() {
    let cpus = parse_cpu_range(&b"0-7,16-23\n".to_vec()).unwrap();
    let expected = (0..=7).chain(16..=23).collect::<Vec<_>>();
    assert_eq!(cpus, expected);
}

#[test]
fn cpu_list_mixed() {
    let cpus = parse_cpu_range(&b"0-1,3,7-9,48,49\n".to_vec()).unwrap();
    assert_eq!(
        cpus,
        (0..=1)
            .chain(3..=3)
            .chain(7..=9)
            .chain(48..=48)
            .chain(49..=49)
            .collect::<Vec<_>>()
    );
}

#[test]
fn cpu_list_errors() {
    assert_eq!(
        parse_cpu_range(&b"".to_vec()),
        Err(CpuListError::InvalidLoneCpu)
    );
    assert_eq!(
        parse_cpu_range(&b"seven\n".to_vec()),
        Err(CpuListError::InvalidLoneCpu)
    );
    assert_eq!(
        parse_cpu_range(&b"x-3\n".to_vec()),
        Err(CpuListError::InvalidRangeStart)
    );
    assert_eq!(
        parse_cpu_range(&b"3-x\n".to_vec()),
        Err(CpuListError::InvalidRangeEnd)
    );
    assert_eq!(
        parse_cpu_range(&b"0-4294967295\n".to_vec()),
        Err(CpuListError::RangeEndOverflow)
    );
    assert_eq!(
        parse_cpu_range(&b"0,99999999999\n".to_vec()),
        Err(CpuListError::InvalidLoneCpu)
    );
}
