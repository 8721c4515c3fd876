use agent_core::exact::close_enough;
use agent_core::ieee::{encode_le_i32, encode_le_u32, read_le_i32, read_le_u32, read_le_u64, F32Bits};
use agent_core::memory::{MemoryEngine, MemoryRegion};
use agent_core::scan::PatternMatch;
use agent_core::text::{
    chars_of, contains_chars, parse_number, str_contains, str_equal, to_decimal, token_spans,
};
use agent_core::unity::{GameDataStructures, GameSignature};

fn value(v: F32Bits) -> f32 {
    f32::from_bits(v.bits)
}

fn bits(v: f32) -> F32Bits {
    F32Bits::from_bits(v.to_bits())
}

fn region(start: u64, end: u64, perms: &str, path: &str) -> MemoryRegion {
    MemoryRegion {
        start_addr: start,
        end_addr: end,
        permissions: perms.to_string(),
        offset: 0,
        device: "00:00".to_string(),
        inode: 0,
        pathname: path.to_string(),
    }
}

fn floats(values: &[f32]) -> Vec<u8> {
    let mut out = Vec::new();
    for v in values {
        out.extend_from_slice(&v.to_le_bytes());
    }
    out
}

fn places(found: &[PatternMatch]) -> Vec<(u64, u64, u64)> {
    found.iter().map(|m| (m.address, m.region_start, m.offset_in_region)).collect()
}

#[test]
fn test_parse_maps_line() {
    let line = "7f1234567000-7f1234568000 r-xp 00000000 08:01 12345 /lib/libc.so";
    let region = MemoryEngine::parse_maps_line(line).unwrap();

    assert_eq!(region.start_addr, 0x7f1234567000);
    assert_eq!(region.end_addr, 0x7f1234568000);
    assert_eq!(region.permissions, "r-xp");
    assert!(region.is_readable());
    assert!(!region.is_writable());
    assert!(region.is_executable());
}

#[test]
fn test_parse_unity_stats() {
    let data = [
        0x00, 0x00, 0xC8, 0x42, 0x00, 0x00, 0xC8, 0x42, 0x00, 0x00, 0x48, 0x42, 0x00, 0x00, 0xC8,
        0x42,
    ];

    let stats = GameDataStructures::parse_unity_stats(&data).unwrap();
    assert!((value(stats.0) - 100.0).abs() < 0.01);
    assert!((value(stats.1) - 100.0).abs() < 0.01);
    assert!((value(stats.2) - 50.0).abs() < 0.01);
}

#[test]
fn test_parse_position() {
    let data = [0x00, 0x00, 0x20, 0x41, 0x00, 0x00, 0xA0, 0x41, 0x00, 0x00, 0xF0, 0x41];

    let pos = GameDataStructures::parse_position(&data).unwrap();
    assert!((value(pos.0) - 10.0).abs() < 0.01);
    assert!((value(pos.1) - 20.0).abs() < 0.01);
    assert!((value(pos.2) - 30.0).abs() < 0.01);
}

#[test]
fn test_region_filters() {
    let region = MemoryRegion {
        start_addr: 0x1000,
        end_addr: 0x10000,
        permissions: "rw-p".to_string(),
        offset: 0,
        device: "00:00".to_string(),
        inode: 0,
        pathname: "[heap]".to_string(),
    };

    assert!(region.is_readable());
    assert!(region.is_writable());
    assert!(!region.is_executable());
    assert!(region.is_heap());
    assert!(!region.is_stack());
}

#[test]
fn every_field_of_a_maps_line() {
    let line = "7f1234567000-7f1234568000 r-xp 0001f000 08:01 12345 /lib/libc.so";
    let region = MemoryEngine::parse_maps_line(line).unwrap();
    assert_eq!(region.start_addr, 0x7f1234567000);
    assert_eq!(region.end_addr, 0x7f1234568000);
    assert_eq!(region.permissions, "r-xp");
    assert_eq!(region.offset, 0x1f000);
    assert_eq!(region.device, "08:01");
    assert_eq!(region.inode, 12345);
    assert_eq!(region.pathname, "/lib/libc.so");
    assert_eq!(region.size(), 0x1000);
    assert!(!region.is_anonymous());
    assert!(!region.is_heap());
}

#[test]
fn maps_lines_with_odd_spacing() {
    let region =
        MemoryEngine::parse_maps_line("  00400000-00452000\tr--p  0 fd:00 173521   /my  app (deleted) ")
            .unwrap();
    assert_eq!(region.start_addr, 0x400000);
    assert_eq!(region.end_addr, 0x452000);
    assert_eq!(region.pathname, "/my app (deleted)");
    let anon = MemoryEngine::parse_maps_line("ABCDEF-abcdf0 rw-p zz 00:00 -7").unwrap();
    assert_eq!((anon.start_addr, anon.end_addr), (0xabcdef, 0xabcdf0));
    assert_eq!((anon.offset, anon.inode), (0, 0));
    assert_eq!(anon.pathname, "");
    assert!(anon.is_anonymous());
    let plus = MemoryEngine::parse_maps_line("+10-+20 r--p +30 00:00 +40 [stack]").unwrap();
    assert_eq!((plus.start_addr, plus.end_addr, plus.offset, plus.inode), (0x10, 0x20, 0x30, 40));
    assert!(plus.is_stack());
    let wide = MemoryEngine::parse_maps_line("0-ffffffffffffffff r--p 0 0 0").unwrap();
    assert_eq!(wide.end_addr, u64::MAX);
    let spaced = MemoryEngine::parse_maps_line("0-1\u{a0}r--p\u{2003}0 fd:00 1").unwrap();
    assert_eq!(spaced.permissions, "r--p");
    assert_eq!(spaced.device, "fd:00");
}

#[test]
fn lines_that_are_no_region() {
    for line in [
        "",
        "   ",
        "00400000-00452000 r--p 0 fd:00",
        "00400000 r--p 0 fd:00 1 /x",
        "00400000-00452000-1 r--p 0 fd:00 1",
        "-00452000 r--p 0 fd:00 1",
        "00400000- r--p 0 fd:00 1",
        "+-1 r--p 0 fd:00 1",
        "0x400000-00452000 r--p 0 fd:00 1",
        "00400000-0045g000 r--p 0 fd:00 1",
        "0-10000000000000000 r--p 0 fd:00 1",
        "0-1_r--p 0 fd:00 1",
    ] {
        assert!(MemoryEngine::parse_maps_line(line).is_none(), "{}", line);
    }
}

#[test]
fn regions_of_a_maps_file() {
    let lines = vec![
        "00400000-00452000 r-xp 00000000 08:02 173521 /usr/bin/game".to_string(),
        "not a mapping".to_string(),
        "00e03000-00e24000 rw-p 00000000 00:00 0 [heap]".to_string(),
        String::new(),
        "7ffd0000-7ffd1000 rw-p 00000000 00:00 0".to_string(),
    ];
    let regions = MemoryEngine::parse_memory_maps(&lines);
    assert_eq!(regions.len(), 3);
    assert_eq!(regions[0].pathname, "/usr/bin/game");
    assert_eq!(regions[1].start_addr, 0xe03000);
    assert_eq!(regions[2].pathname, "");
    assert!(MemoryEngine::parse_memory_maps(&[]).is_empty());
}

#[test]
fn region_predicates() {
    assert!(!region(0, 1, "", "").is_readable());
    assert!(!region(0, 1, "r", "").is_writable());
    assert!(!region(0, 1, "rw", "").is_executable());
    assert!(region(0, 1, "-wx", "").is_writable());
    assert!(!region(0, 1, "wr-p", "").is_readable());
    assert!(region(0, 1, "---p", "").is_anonymous());
    assert!(region(0, 1, "---p", "[anon]").is_anonymous());
    assert!(!region(0, 1, "---p", "[anon] ").is_anonymous());
    assert!(region(0, 1, "---p", "x[heap]y").is_heap());
    assert!(!region(0, 1, "---p", "[hea]p").is_heap());
    assert!(region(0, 1, "---p", "[stack]").is_stack());
    assert!(!region(0, 1, "---p", "[stack").is_stack());
    assert_eq!(region(5, 5, "r", "").size(), 0);
    assert_eq!(region(0, u64::MAX, "r", "").size(), u64::MAX);
}

#[test]
fn game_regions_are_kept() {
    let mib = 1024 * 1024;
    let regions = vec![
        region(0x10000, 0x10000 + 4097, "rw-p", ""),
        region(0x10000, 0x10000 + 4096, "rw-p", ""),
        region(0x20000, 0x20000 + 512 * mib, "rw-p", "[heap]"),
        region(0x20000, 0x20000 + 512 * mib - 1, "rw-p", "[heap]"),
        region(0x30000, 0x40000, "r--p", ""),
        region(0x30000, 0x40000, "-w-p", ""),
        region(0x30000, 0x40000, "rw-p", "/lib/libc.so"),
        region(0x30000, 0x40000, "rwxp", "[anon]"),
        region(0x30000, 0x40000, "rw-p", "[stack]"),
    ];
    let kept = MemoryEngine::filter_game_regions(&regions);
    let got: Vec<(u64, u64, &str)> =
        kept.iter().map(|r| (r.start_addr, r.end_addr, r.pathname.as_str())).collect();
    assert_eq!(
        got,
        vec![
            (0x10000, 0x10000 + 4097, ""),
            (0x20000, 0x20000 + 512 * mib - 1, "[heap]"),
            (0x30000, 0x40000, "[anon]"),
        ]
    );
    assert_eq!(kept[2].permissions, "rwxp");
    assert_eq!(kept[2].device, "00:00");
}

#[test]
fn library_regions_are_found() {
    let regions = vec![
        region(1, 2, "r-xp", "/data/app/lib/libunity.so"),
        region(2, 3, "r--p", "/system/lib/libc.so"),
        region(3, 4, "rw-p", "/data/app/lib/libunity.so"),
        region(4, 5, "rw-p", ""),
    ];
    let found = MemoryEngine::find_library_regions(&regions, "libunity");
    assert_eq!(found.iter().map(|r| r.start_addr).collect::<Vec<_>>(), vec![1, 3]);
    assert_eq!(MemoryEngine::find_library_regions(&regions, "").len(), 4);
    assert!(MemoryEngine::find_library_regions(&regions, "libunity.so.1").is_empty());
}

#[test]
fn pattern_is_found_in_every_place() {
    let regions = vec![
        region(0x1000, 0x1008, "r--p", ""),
        region(0x2000, 0x2004, "-w-p", ""),
        region(0x3000, 0x3000, "r--p", ""),
        region(0x4000, 0x4006, "rw-p", ""),
        region(0x5000, 0x5004, "r--p", ""),
    ];
    let contents = vec![
        Some(vec![1, 2, 1, 2, 1, 0, 1, 2]),
        Some(vec![1, 2, 1, 2]),
        Some(vec![]),
        None,
        Some(vec![9, 1, 2, 9]),
    ];
    let found = MemoryEngine::search_pattern(&contents, &[1, 2], &regions, 10).unwrap();
    assert_eq!(
        places(&found),
        vec![(0x1000, 0x1000, 0), (0x1002, 0x1000, 2), (0x1006, 0x1000, 6), (0x5001, 0x5000, 1)]
    );
    for m in &found {
        assert_eq!(m.matched_bytes, vec![1, 2]);
    }
    let overlapping = MemoryEngine::search_pattern(&contents, &[1, 2, 1], &regions, 10).unwrap();
    assert_eq!(places(&overlapping), vec![(0x1000, 0x1000, 0), (0x1002, 0x1000, 2)]);
    let long = MemoryEngine::search_pattern(&contents, &[1, 2, 1, 2, 1, 0, 1, 2, 3], &regions, 10);
    assert!(long.unwrap().is_empty());
}

#[test]
fn search_stops_at_the_limit() {
    let regions = vec![region(0x1000, 0x1008, "r--p", ""), region(0x5000, 0x5004, "r--p", "")];
    let contents = vec![Some(vec![1, 2, 1, 2, 1, 0, 1, 2]), Some(vec![9, 1, 2, 9])];
    for limit in 0..6 {
        let found = MemoryEngine::search_pattern(&contents, &[1, 2], &regions, limit).unwrap();
        assert_eq!(found.len(), limit.min(4));
        let masked = MemoryEngine::search_pattern_masked(
            &contents,
            &[1, 7],
            &[true, false],
            &regions,
            limit,
        )
        .unwrap();
        assert!(masked.len() <= limit);
        assert_eq!(masked.len(), limit.min(5));
    }
    let three = MemoryEngine::search_pattern(&contents, &[1, 2], &regions, 3).unwrap();
    assert_eq!(places(&three), vec![(0x1000, 0x1000, 0), (0x1002, 0x1000, 2), (0x1006, 0x1000, 6)]);
}

#[test]
fn masked_search_skips_wildcards() {
    let regions = vec![region(0x1000, 0x1008, "r--p", "")];
    let contents = vec![Some(vec![5, 0, 7, 5, 9, 7, 5, 1])];
    let found = MemoryEngine::search_pattern_masked(
        &contents,
        &[5, 0, 7],
        &[true, false, true],
        &regions,
        10,
    )
    .unwrap();
    assert_eq!(places(&found), vec![(0x1000, 0x1000, 0), (0x1003, 0x1000, 3)]);
    assert_eq!(found[0].matched_bytes, vec![5, 0, 7]);
    assert_eq!(found[1].matched_bytes, vec![5, 9, 7]);
    let all = MemoryEngine::search_pattern_masked(
        &contents,
        &[0, 0],
        &[false, false],
        &regions,
        100,
    )
    .unwrap();
    assert_eq!(all.len(), 7);
}

#[test]
fn mask_of_another_length_is_an_error() {
    let regions = vec![region(0x1000, 0x1002, "r--p", "")];
    let contents = vec![Some(vec![1, 2])];
    let result = MemoryEngine::search_pattern_masked(&contents, &[1, 2], &[true], &regions, 10);
    assert_eq!(result.unwrap_err(), "Pattern and mask length mismatch");
    let result = MemoryEngine::search_pattern_masked(&contents, &[], &[true], &regions, 10);
    assert_eq!(result.unwrap_err(), "Pattern and mask length mismatch");
}

#[test]
fn int32_is_found_at_the_region_base() {
    for v in [0i32, 1, -1, 305419896, i32::MIN, i32::MAX, -559038737] {
        let mut data = v.to_le_bytes().to_vec();
        data.extend_from_slice(&[0xaa, 0xbb]);
        data.extend_from_slice(&v.to_le_bytes());
        let regions = vec![region(0x7000, 0x7000 + data.len() as u64, "rw-p", "")];
        let found = MemoryEngine::search_int32(&[Some(data)], v, &regions, 5).unwrap();
        assert_eq!(found[0].address, 0x7000);
        assert_eq!(found[0].offset_in_region, 0);
        assert_eq!(found[0].matched_bytes, v.to_le_bytes().to_vec());
        assert_eq!(found.last().unwrap().address, 0x7006);
        assert_eq!(encode_le_i32(v), v.to_le_bytes().to_vec());
        assert_eq!(read_le_i32(&v.to_le_bytes(), 0), v);
    }
}

#[test]
fn floats_are_found_at_aligned_offsets() {
    let mut data = floats(&[1.5, 9.0, 1.45, f32::NAN, 1.55, f32::INFINITY, 1.56]);
    data.push(0);
    data.splice(0..0, [0u8, 0, 0, 0]);
    let regions = vec![
        region(0x100, 0x103, "r--p", ""),
        region(0x1000, 0x1000 + data.len() as u64, "r--p", ""),
    ];
    let contents = vec![Some(vec![0, 0, 0]), Some(data)];
    let found =
        MemoryEngine::search_float32(&contents, bits(1.5), bits(0.051), &regions, 10).unwrap();
    assert_eq!(
        places(&found),
        vec![(0x1004, 0x1000, 4), (0x100c, 0x1000, 12), (0x1014, 0x1000, 20)]
    );
    assert_eq!(found[0].matched_bytes, 1.5f32.to_le_bytes().to_vec());
    let everything =
        MemoryEngine::search_float32(&contents, bits(0.0), bits(f32::INFINITY), &regions, 10)
            .unwrap();
    assert_eq!(everything.len(), 6);
    let two = MemoryEngine::search_float32(&contents, bits(1.5), bits(0.051), &regions, 2).unwrap();
    assert_eq!(two.len(), 2);
    let none = MemoryEngine::search_float32(&contents, bits(f32::NAN), bits(2.0), &regions, 10);
    assert!(none.unwrap().is_empty());
    let exact = MemoryEngine::search_float32(&contents, bits(9.0), bits(-0.0), &regions, 10);
    assert_eq!(places(&exact.unwrap()), vec![(0x1008, 0x1000, 8)]);
}

#[test]
fn tolerance_is_exact() {
    let close = |found: f32, value: f32, tolerance: f32| {
        close_enough(&bits(found), &bits(value), &bits(tolerance))
    };
    assert!(close(1.0, 1.0, 0.0));
    assert!(close(0.0, -0.0, 0.0));
    assert!(!close(1.0000001, 1.0, 0.0));
    assert!(close(1.5, 1.0, 0.5));
    assert!(close(0.5, 1.0, 0.5));
    assert!(!close(1.5000001, 1.0, 0.5));
    assert!(!close(0.49999997, 1.0, 0.5));
    assert!(close(-1.0, 1.0, 2.0));
    assert!(!close(-1.0000001, 1.0, 2.0));
    assert!(close(3.0, 1.0, 2.0));
    assert!(!close(1.0, 1.0, -1.0));
    assert!(!close(1.0, 1.0, f32::NEG_INFINITY));
    assert!(close(f32::MAX, f32::MIN, f32::INFINITY));
    assert!(!close(f32::MAX, f32::MIN, f32::MAX));
    assert!(close(f32::MAX, 0.0, f32::MAX));
    assert!(close(1.0, f32::INFINITY, f32::INFINITY));
    assert!(!close(1.0, f32::INFINITY, f32::MAX));
    assert!(!close(f32::INFINITY, f32::INFINITY, f32::INFINITY));
    assert!(!close(f32::NAN, 1.0, 1.0));
    assert!(!close(1.0, f32::NAN, 1.0));
    assert!(!close(1.0, 1.0, f32::NAN));
    assert!(close(1e-45, -1e-45, 3e-45));
    assert!(!close(1e-45, -1e-45, 1e-45));
    assert!(close(1e-45, -1e-45, 2.8e-45));
    assert!(close(f32::MAX, f32::MAX, 1e-45));
    assert!(close(1e30, 1e30, 1e-30));
    assert!(!close(1e30, 1.0000001e30, 1e-30));
    assert!(close(16777216.0, 16777217.0, 0.0));
    assert!(close(0.1, 0.3, 0.20000002));
    assert!(!close(0.1, 0.3, 0.2));
    let samples = [-3.5f32, -1.0, -0.25, 0.0, 0.25, 1.0, 2.0, 3.5, 100.0];
    for &found in &samples {
        for &value in &samples {
            for &tolerance in &[0.0f32, 0.25, 1.0, 2.5, 50.0] {
                let expected = (found as f64 - value as f64).abs() <= tolerance as f64;
                assert_eq!(close(found, value, tolerance), expected);
            }
        }
    }
}

#[test]
fn region_by_region() {
    let r = region(0x1000, 0x1004, "r--p", "");
    let hidden = region(0x1000, 0x1004, "-w-p", "");
    let empty = region(0x1000, 0x1000, "r--p", "");
    assert!(MemoryEngine::wants_region(0, &r, 1));
    assert!(!MemoryEngine::wants_region(1, &r, 1));
    assert!(!MemoryEngine::wants_region(0, &hidden, 1));
    assert!(!MemoryEngine::wants_region(0, &empty, 1));
    assert!(MemoryEngine::wants_words(0, &r, 1));
    assert!(!MemoryEngine::wants_words(0, &region(0x1000, 0x1003, "r--p", ""), 1));
    let mut found = Vec::new();
    MemoryEngine::scan_region(&mut found, &r, Some(&[7, 7, 7, 7]), &[7], &[true], 3);
    assert_eq!(found.len(), 3);
    MemoryEngine::scan_region(&mut found, &r, Some(&[7, 7, 7, 7]), &[7], &[true], 3);
    assert_eq!(found.len(), 3);
    MemoryEngine::scan_region(&mut found, &r, None, &[7], &[true], 9);
    assert_eq!(found.len(), 3);
    MemoryEngine::scan_region(&mut found, &hidden, Some(&[7, 7, 7, 7]), &[7], &[true], 9);
    assert_eq!(found.len(), 3);
    MemoryEngine::scan_words(&mut found, &r, Some(&[0, 0, 128, 63]), bits(1.0), bits(0.0), 9);
    assert_eq!(found.len(), 4);
    assert_eq!(found[3].address, 0x1000);
}

#[test]
fn numbers_read_from_bytes() {
    assert_eq!(MemoryEngine::read_int32(&[0x78, 0x56, 0x34, 0x12]), Ok(0x12345678));
    assert_eq!(MemoryEngine::read_int32(&[0xff, 0xff, 0xff, 0xff]), Ok(-1));
    assert_eq!(MemoryEngine::read_int32(&[0, 0, 0, 0x80]), Ok(i32::MIN));
    assert_eq!(MemoryEngine::read_int32(&[1, 2, 3]), Err("Invalid byte count".to_string()));
    assert_eq!(MemoryEngine::read_int32(&[1, 2, 3, 4, 5]), Err("Invalid byte count".to_string()));
    assert_eq!(MemoryEngine::read_float32(&[0, 0, 0x20, 0x41]).map(value), Ok(10.0));
    assert_eq!(MemoryEngine::read_float32(&[]), Err("Invalid byte count".to_string()));
    assert_eq!(read_le_u32(&[9, 0x78, 0x56, 0x34, 0x12], 1), 0x12345678);
    assert_eq!(read_le_u64(&[1, 2, 3, 4, 5, 6, 7, 8], 0), 0x0807060504030201);
    assert_eq!(encode_le_u32(0x12345678), vec![0x78, 0x56, 0x34, 0x12]);
}

#[test]
fn float_bytes_round_trip() {
    for f in [0.0f32, -0.0, 1.0, -1.5, 3.1415927, f32::MIN_POSITIVE, 1e-45, f32::MAX, f32::MIN] {
        let written = f.to_le_bytes();
        let read = MemoryEngine::read_float32(&written).unwrap();
        assert_eq!(read.bits, f.to_bits());
        assert_eq!(value(read), f);
        assert_eq!(bits(f).to_le_bytes(), written.to_vec());
        assert_eq!(F32Bits::read_le(&written, 0).to_bits(), f.to_bits());
    }
}

#[test]
fn bit_patterns_compare_as_floats_do() {
    let samples = [
        f32::NEG_INFINITY,
        f32::MIN,
        -100000.0,
        -1.0,
        -1e-45,
        -0.0,
        0.0,
        1e-45,
        f32::MIN_POSITIVE,
        0.19999999,
        0.2,
        0.20000002,
        0.29999998,
        0.3,
        0.5,
        1.0,
        999.99994,
        1000.0,
        99999.99,
        100000.0,
        f32::MAX,
        f32::INFINITY,
        f32::NAN,
        -f32::NAN,
    ];
    for &a in &samples {
        assert_eq!(bits(a).is_nan(), a.is_nan());
        assert_eq!(bits(a).is_finite(), a.is_finite());
        assert_eq!(value(bits(a).abs()).to_bits(), a.abs().to_bits());
        for &b in &samples {
            assert_eq!(bits(a).lt(&bits(b)), a < b, "{} < {}", a, b);
            assert_eq!(bits(a).le(&bits(b)), a <= b, "{} <= {}", a, b);
            assert_eq!(bits(a).gt(&bits(b)), a > b, "{} > {}", a, b);
            assert_eq!(bits(a).ge(&bits(b)), a >= b, "{} >= {}", a, b);
        }
    }
    assert_eq!(agent_core::ieee::FIFTH_BITS, 0.2f32.to_bits());
    assert_eq!(agent_core::ieee::THREE_TENTHS_BITS, 0.3f32.to_bits());
    assert_eq!(agent_core::ieee::HALF_BITS, 0.5f32.to_bits());
    assert_eq!(agent_core::ieee::THOUSAND_BITS, 1000f32.to_bits());
    assert_eq!(agent_core::ieee::HUNDRED_THOUSAND_BITS, 100000f32.to_bits());
    assert_eq!(agent_core::ieee::ZERO_BITS, 0f32.to_bits());
}

#[test]
fn text_is_read_up_to_the_first_zero() {
    assert_eq!(MemoryEngine::read_string(b"hello\0world"), Ok("hello".to_string()));
    assert_eq!(MemoryEngine::read_string(b"hello"), Ok("hello".to_string()));
    assert_eq!(MemoryEngine::read_string(b"\0hello"), Ok(String::new()));
    assert_eq!(MemoryEngine::read_string(b""), Ok(String::new()));
    assert_eq!(MemoryEngine::read_string("gr\u{fc}n \u{4e16}\0".as_bytes()), Ok("gr\u{fc}n \u{4e16}".to_string()));
    assert_eq!(MemoryEngine::read_string(&[b'a', 0, 0xff]), Ok("a".to_string()));
    let bad = MemoryEngine::read_string(&[b'a', 0xff, 0]).unwrap_err();
    let expected = format!("Invalid UTF-8: {}", String::from_utf8(vec![b'a', 0xff]).unwrap_err());
    assert_eq!(bad, expected);
    assert!(bad.starts_with("Invalid UTF-8: "));
    assert!(bad.len() > "Invalid UTF-8: ".len());
}

#[test]
fn pointer_hops() {
    let pointer = 0x7000_1000u64.to_le_bytes();
    assert_eq!(MemoryEngine::follow_pointer(&pointer, 0x10, 0), Ok(0x7000_1010));
    assert_eq!(MemoryEngine::follow_pointer(&u64::MAX.to_le_bytes(), 2, 0), Ok(1));
    assert_eq!(
        MemoryEngine::follow_pointer(&[0; 8], 0x10, 3),
        Err("Null pointer at offset index 3".to_string())
    );
    assert_eq!(
        MemoryEngine::follow_pointer(&[0; 8], 0x10, 120),
        Err("Null pointer at offset index 120".to_string())
    );
    assert_eq!(
        MemoryEngine::follow_pointer(&[1; 7], 0x10, 3),
        Err("Invalid byte count".to_string())
    );
}

#[test]
fn pointer_chains() {
    let reads = vec![0x1000u64.to_le_bytes().to_vec(), 0x2000u64.to_le_bytes().to_vec()];
    assert_eq!(MemoryEngine::resolve_pointer_chain(0x500, &[0x10, 0x20], &reads), Ok(0x2020));
    assert_eq!(MemoryEngine::resolve_pointer_chain(0x500, &[], &[]), Ok(0x500));
    let broken = vec![0x1000u64.to_le_bytes().to_vec(), vec![0; 8], vec![1; 3]];
    assert_eq!(
        MemoryEngine::resolve_pointer_chain(0x500, &[0x10, 0x20, 0x30], &broken),
        Err("Null pointer at offset index 1".to_string())
    );
    let short = vec![vec![1; 3], vec![0; 8]];
    assert_eq!(
        MemoryEngine::resolve_pointer_chain(0x500, &[0x10, 0x20], &short),
        Err("Invalid byte count".to_string())
    );
}

#[test]
fn stats_that_make_no_sense() {
    let stats = |hp: f32, max_hp: f32| {
        GameDataStructures::parse_unity_stats(&floats(&[hp, max_hp, 50.0, 100.0]))
            .map(|s| (value(s.0), value(s.1), value(s.2), value(s.3)))
    };
    assert_eq!(stats(100.0, 100.0), Some((100.0, 100.0, 50.0, 100.0)));
    assert_eq!(stats(0.0, 1.0), Some((0.0, 1.0, 50.0, 100.0)));
    assert_eq!(stats(-0.0, 99999.99), Some((-0.0, 99999.99, 50.0, 100.0)));
    assert_eq!(stats(-1.0, 100.0), None);
    assert_eq!(stats(101.0, 100.0), None);
    assert_eq!(stats(0.0, 0.0), None);
    assert_eq!(stats(1.0, 100000.0), None);
    assert_eq!(stats(f32::NAN, 100.0), None);
    assert_eq!(stats(1.0, f32::NAN), None);
    assert_eq!(stats(1.0, f32::INFINITY), None);
    assert_eq!(GameDataStructures::parse_unity_stats(&floats(&[1.0, 2.0, 3.0])), None);
    let mut long = floats(&[1.0, 2.0, f32::NAN, -5.0]);
    long.push(7);
    assert!(GameDataStructures::parse_unity_stats(&long).is_some());
}

#[test]
fn positions_that_make_no_sense() {
    let position = |x: f32, y: f32, z: f32| {
        GameDataStructures::parse_position(&floats(&[x, y, z]))
            .map(|p| (value(p.0), value(p.1), value(p.2)))
    };
    assert_eq!(position(10.0, 20.0, 30.0), Some((10.0, 20.0, 30.0)));
    assert_eq!(position(-99999.99, 0.0, 99999.99), Some((-99999.99, 0.0, 99999.99)));
    assert_eq!(position(100000.0, 0.0, 0.0), None);
    assert_eq!(position(0.0, -100000.0, 0.0), None);
    assert_eq!(position(0.0, 0.0, f32::NAN), None);
    assert_eq!(position(f32::NEG_INFINITY, 0.0, 0.0), None);
    assert_eq!(GameDataStructures::parse_position(&floats(&[1.0, 2.0])), None);
}

#[test]
fn skill_cooldowns() {
    let mut data = floats(&[1.5, -1.0, 0.0, 1000.0, f32::NAN, 999.99, f32::INFINITY, 3.0]);
    data.extend_from_slice(&[1, 2, 3]);
    let read = |n: usize| -> Vec<f32> {
        GameDataStructures::parse_skill_cooldowns(&data, n).into_iter().map(value).collect()
    };
    assert_eq!(read(0), Vec::<f32>::new());
    assert_eq!(read(1), vec![1.5]);
    assert_eq!(read(3), vec![1.5, 0.0]);
    assert_eq!(read(8), vec![1.5, 0.0, 999.99, 3.0]);
    assert_eq!(read(9), vec![1.5, 0.0, 999.99, 3.0]);
    assert_eq!(read(usize::MAX), vec![1.5, 0.0, 999.99, 3.0]);
    assert!(GameDataStructures::parse_skill_cooldowns(&[1, 2, 3], 5).is_empty());
}

#[test]
fn generic_signature() {
    let sig = GameSignature::generic_unity();
    assert_eq!(sig.game_name, "Generic Unity Game");
    assert_eq!(sig.package_name, "");
    assert_eq!(sig.hp_pattern, vec![0u8; 8]);
    assert_eq!(sig.hp_mask, vec![false; 8]);
    assert_eq!(sig.hp_offset, 0);
    assert_eq!(sig.position_pattern, vec![0u8; 12]);
    assert_eq!(sig.position_mask, vec![false; 12]);
    assert_eq!(sig.position_offset, 0);
}

#[test]
fn text_helpers() {
    assert!(str_contains("abcabd", "abd"));
    assert!(str_contains("abcabd", ""));
    assert!(str_contains("", ""));
    assert!(!str_contains("abcabd", "abe"));
    assert!(!str_contains("ab", "abc"));
    assert!(str_contains("a\u{fc}b", "\u{fc}b"));
    assert!(str_equal("gr\u{fc}n", "gr\u{fc}n"));
    assert!(!str_equal("abc", "abd"));
    assert!(!str_equal("abc", "ab"));
    assert_eq!(chars_of("a\u{4e16}b"), vec!['a', '\u{4e16}', 'b']);
    assert!(contains_chars(&chars_of("needle in hay"), &chars_of("in h")));
    assert_eq!(token_spans(&chars_of(" ab\t c\u{3000}def  ")), vec![(1, 3), (5, 6), (7, 10)]);
    assert!(token_spans(&chars_of(" \n ")).is_empty());
    assert_eq!(to_decimal(0), "0");
    assert_eq!(to_decimal(7), "7");
    assert_eq!(to_decimal(1234567890), "1234567890");
    assert_eq!(to_decimal(usize::MAX), usize::MAX.to_string());
    let digits = chars_of("x+00ff,18446744073709551615,18446744073709551616,+,12a");
    assert_eq!(parse_number(&digits, 1, 6, 16), Some(255));
    assert_eq!(parse_number(&digits, 2, 6, 10), None);
    assert_eq!(parse_number(&digits, 2, 4, 10), Some(0));
    assert_eq!(parse_number(&digits, 7, 27, 10), Some(u64::MAX));
    assert_eq!(parse_number(&digits, 28, 48, 10), None);
    assert_eq!(parse_number(&digits, 49, 50, 10), None);
    assert_eq!(parse_number(&digits, 51, 54, 10), None);
    assert_eq!(parse_number(&digits, 51, 54, 16), Some(0x12a));
    assert_eq!(parse_number(&digits, 3, 3, 16), None);
}
