use std::mem::size_of;

use lopdf::cmap::{BfRangeTarget, CMapParseError, CMapSection, REPLACEMENT_CHAR, ToUnicodeCMap, UnicodeCMapError, UnmappableCode};



#[test]
fn put_char_can_be_retrieved() {
    let mut cmap = ToUnicodeCMap::new();
    let char_code = 0x01;
    let char_value = vec![0x1234];
    cmap.put_char(char_code, 2, char_value.clone());

    assert_eq!(cmap.get(char_code, 2), Some(char_value))
}

#[test]
fn char_can_be_retrieved_only_by_appropriate_len() {
    let mut cmap = ToUnicodeCMap::new();
    let char_code = 0x1;
    let code_len = 4;
    let char_value = vec![0x1234];
    cmap.put_char(char_code, code_len, char_value.clone());

    for i in 1..=3 {
        assert_eq!(cmap.get(char_code, i), None);
    }

    assert_eq!(cmap.get(char_code, code_len), Some(char_value));
}

#[test]
fn wrong_code_len_does_not_panic() {
    let mut cmap = ToUnicodeCMap::new();
    let char_code = 0x1;
    let char_value = vec![0x1234];

    cmap.put_char(char_code, 5, char_value.clone());
    cmap.put_char(char_code, 0, char_value.clone());
}

#[test]
fn array_of_hex_strings_out_of_bounds_returns_replacement() {
    // A bfrange whose array has fewer entries than its source codes need.
    let mut cmap = ToUnicodeCMap::new();
    let array = BfRangeTarget::ArrayOfHexStrings(vec![vec![0x0041], vec![0x0042]]);
    cmap.put(0x10, 0x14, 2, array);

    assert_eq!(cmap.get(0x10, 2), Some(vec![0x0041]));
    assert_eq!(cmap.get(0x11, 2), Some(vec![0x0042]));

    assert_eq!(cmap.get(0x12, 2), Some(vec![REPLACEMENT_CHAR]));
    assert_eq!(cmap.get(0x13, 2), Some(vec![REPLACEMENT_CHAR]));
    assert_eq!(cmap.get(0x14, 2), Some(vec![REPLACEMENT_CHAR]));
}

#[test]
fn forward_only_full_four_byte_range_stays_compact() {
    let sections = vec![
        CMapSection::CsRange(vec![(0, u32::MAX, 4)]),
        CMapSection::BfRange(vec![((0, u32::MAX, 4), vec![vec![0x0041]])]),
    ];
    let cmap = ToUnicodeCMap::from_sections(sections, false).unwrap();

    assert!(cmap.get_source_codes_for_unicode(&[0x0041]).is_none());
    assert_eq!(cmap.bf_ranges[3].iter().count(), 1);
    assert_eq!(cmap.get(0, 4), Some(vec![0x0041]));
    assert_eq!(cmap.get(1, 4), Some(vec![0x0042]));
    assert_eq!(cmap.get(u32::MAX, 4), Some(vec![0x0040]));
}

#[test]
fn sparse_single_range_has_absolute_full_node_lower_bound() {
    let mut cmap = ToUnicodeCMap::new();
    cmap.put(0x10, 0x10, 1, BfRangeTarget::UTF16CodePoint { offset: 0 });

    assert_eq!(cmap.bf_ranges[0].iter().count(), 1);
    assert!(cmap.retained_heap_bytes() >= 2 * 1024);
}

#[test]
fn retained_weight_tracks_multiple_ranges_and_target_capacity() {
    let mut target = Vec::with_capacity(64);
    target.push(0x0041);
    let mut cmap = ToUnicodeCMap::new();
    cmap.put(0x10, 0x10, 1, BfRangeTarget::HexString(target));
    cmap.put(0x20, 0x2f, 1, BfRangeTarget::UTF16CodePoint { offset: 0 });

    assert_eq!(cmap.bf_ranges[0].iter().count(), 2);
    assert!(cmap.retained_heap_bytes() >= 2 * (2 * 1024) + 64 * size_of::<u16>());
}

#[test]
fn an_empty_map_has_no_codes() {
    let cmap = ToUnicodeCMap::new();
    assert_eq!(cmap.get(0x41, 1), None);
    assert_eq!(cmap.checked_get(0x41, 1), Ok(None));
    assert_eq!(cmap.get_or_replacement_char(0x41, 1), vec![REPLACEMENT_CHAR]);
    assert!(cmap.get_source_codes_for_unicode(&[0x41]).is_none());
}

#[test]
fn a_code_point_range_counts_on_and_wraps() {
    let mut cmap = ToUnicodeCMap::new();
    cmap.put(0x20, 0x30, 2, BfRangeTarget::UTF16CodePoint { offset: 0x100 });
    assert_eq!(cmap.get(0x20, 2), Some(vec![0x120]));
    assert_eq!(cmap.get(0x30, 2), Some(vec![0x130]));
    assert_eq!(cmap.get(0x31, 2), None);
    assert_eq!(cmap.get(0x1f, 2), None);
}

#[test]
fn a_string_range_counts_in_its_last_unit() {
    let mut cmap = ToUnicodeCMap::new();
    cmap.put(0x10, 0x12, 2, BfRangeTarget::HexString(vec![0x66, 0x69]));
    assert_eq!(cmap.get(0x10, 2), Some(vec![0x66, 0x69]));
    assert_eq!(cmap.get(0x12, 2), Some(vec![0x66, 0x6b]));
}

#[test]
fn a_code_whose_string_cannot_count_is_unmappable() {
    let mut cmap = ToUnicodeCMap::new();
    cmap.put(0x10, 0x11, 2, BfRangeTarget::HexString(vec![0xd800, 0xffff]));
    assert_eq!(cmap.checked_get(0x10, 2), Ok(Some(vec![0xd800, 0xffff])));
    assert_eq!(cmap.checked_get(0x11, 2), Err(UnmappableCode));
    cmap.put(0x20, 0x20, 2, BfRangeTarget::HexString(vec![]));
    assert_eq!(cmap.checked_get(0x20, 2), Err(UnmappableCode));
}

#[test]
fn later_ranges_split_earlier_ones() {
    let mut cmap = ToUnicodeCMap::new();
    cmap.put(0x00, 0x0f, 1, BfRangeTarget::UTF16CodePoint { offset: 0x40 });
    cmap.put_char(0x08, 1, vec![0x20ac]);
    assert_eq!(cmap.bf_ranges[0].iter().count(), 3);
    assert_eq!(cmap.get(0x07, 1), Some(vec![0x47]));
    assert_eq!(cmap.get(0x08, 1), Some(vec![0x20ac]));
    assert_eq!(cmap.get(0x09, 1), Some(vec![0x49]));
}

#[test]
fn touching_ranges_with_one_offset_become_one() {
    let mut cmap = ToUnicodeCMap::new();
    cmap.put(0x00, 0x0f, 1, BfRangeTarget::UTF16CodePoint { offset: 0x40 });
    cmap.put(0x10, 0x1f, 1, BfRangeTarget::UTF16CodePoint { offset: 0x40 });
    assert_eq!(cmap.bf_ranges[0].iter().count(), 1);
    assert_eq!(cmap.get(0x1f, 1), Some(vec![0x5f]));
}

#[test]
fn units_and_strings_are_given_back() {
    let mut cmap = ToUnicodeCMap::new();
    cmap.put_char(0x41, 1, vec![0x0041]);
    cmap.put_char(0x42, 1, vec![0xd83d, 0xde00]);
    cmap.put_char(0x43, 1, vec![]);
    assert_eq!(cmap.get(0x41, 1), Some(vec![0x0041]));
    assert_eq!(cmap.get(0x42, 1), Some(vec![0xd83d, 0xde00]));
    assert_eq!(cmap.checked_get(0x43, 1), Err(UnmappableCode));
}

#[test]
fn sections_are_read_both_ways() {
    let sections = vec![
        CMapSection::CsRange(vec![(0, 0xff, 1)]),
        CMapSection::BfChar(vec![((0x20, 1), vec![0x0041]), ((0x21, 1), vec![0x0066, 0x0069])]),
        CMapSection::BfRange(vec![
            ((0x30, 0x32, 1), vec![vec![0x0040]]),
            ((0x40, 0x41, 1), vec![vec![0x0058], vec![0x0059]]),
        ]),
    ];
    let cmap = ToUnicodeCMap::from_sections(sections, true).unwrap();
    assert_eq!(cmap.get(0x20, 1), Some(vec![0x0041]));
    assert_eq!(cmap.get(0x21, 1), Some(vec![0x0066, 0x0069]));
    assert_eq!(cmap.get(0x31, 1), Some(vec![0x0041]));
    assert_eq!(cmap.get(0x41, 1), Some(vec![0x0059]));
    let codes = |units: &[u16]| {
        cmap.get_source_codes_for_unicode(units)
            .map(|entries| entries.iter().map(|entry| (entry.source_code, entry.code_len)).collect::<Vec<_>>())
    };
    assert_eq!(codes(&[0x0041]), Some(vec![(0x20, 1), (0x31, 1)]));
    assert_eq!(codes(&[0x0066, 0x0069]), Some(vec![(0x21, 1)]));
    assert_eq!(codes(&[0x0059]), Some(vec![(0x41, 1)]));
    assert_eq!(codes(&[0x005a]), None);
}

#[test]
fn a_range_that_ends_before_it_begins_is_an_error() {
    let sections = vec![CMapSection::BfRange(vec![((0x12, 0x10, 2), vec![vec![0x0041]])])];
    assert_eq!(
        ToUnicodeCMap::from_sections(sections, false).err(),
        Some(UnicodeCMapError::InvalidCodeRange)
    );
    assert_eq!(
        UnicodeCMapError::from(CMapParseError::Incomplete),
        UnicodeCMapError::Parse(CMapParseError::Incomplete)
    );
}

#[test]
fn giving_a_code_a_unit_leaves_the_others() {
    let mut cmap = ToUnicodeCMap::new();
    cmap.put(0x20, 0x2f, 1, BfRangeTarget::UTF16CodePoint { offset: 0x21 });
    cmap.put_char(0x0025, 2, vec![0x0391]);
    let before: Vec<_> = (0x1f..0x31).map(|code| cmap.get(code, 1)).collect();
    cmap.put_char(0x25, 1, vec![0x05d0]);
    for (index, code) in (0x1f..0x31).enumerate() {
        let expected = if code == 0x25 { Some(vec![0x05d0]) } else { before[index].clone() };
        assert_eq!(cmap.get(code, 1), expected);
    }
    assert_eq!(cmap.get(0x0025, 2), Some(vec![0x0391]));
    assert_eq!(cmap.get(0x26, 1), Some(vec![0x47]));
}

#[test]
fn strings_lead_to_all_their_codes_in_order() {
    let sections = vec![
        CMapSection::BfChar(vec![((0x0102, 2), vec![0x0041]), ((0x30, 1), vec![0x0041])]),
        CMapSection::BfRange(vec![
            ((0x10, 0x12, 1), vec![vec![0x0040]]),
            ((0x20, 0x22, 1), vec![vec![0x0041], vec![0xfffd]]),
        ]),
    ];
    let cmap = ToUnicodeCMap::from_sections(sections, true).unwrap();
    let codes = |units: &[u16]| {
        cmap.get_source_codes_for_unicode(units)
            .map(|entries| entries.iter().map(|entry| (entry.code_len, entry.source_code)).collect::<Vec<_>>())
    };
    assert_eq!(codes(&[0x0041]), Some(vec![(1, 0x11), (1, 0x20), (1, 0x30), (2, 0x0102)]));
    for (code_len, code) in codes(&[0x0041]).unwrap() {
        assert_eq!(cmap.get(code, code_len), Some(vec![0x0041]));
    }
    assert_eq!(cmap.get(0x22, 1), Some(vec![0xfffd]));
    assert_eq!(codes(&[0xfffd]), Some(vec![(1, 0x21)]));
    assert_eq!(codes(&[0x0043]), None);
}
