use core_latency::topology::MaskRecord;
use core_latency::topology::RawRecord;
use core_latency::topology::TopologyError;
use core_latency::topology::derive_topology;
use core_latency::topology::derive_topology_from_text;
use core_latency::topology::group_representatives;
use core_latency::topology::parse_records;
use core_latency::topology::parse_usize;
use core_latency::topology::representatives_from_masks;

fn rec(logical: usize, package: usize, core: usize) -> RawRecord {
    RawRecord { logical, package, core }
}

#[test]
fn parse_usize_reads_plain_numerals() {
    assert_eq!(parse_usize(&b"0".to_vec()), Some(0));
    assert_eq!(parse_usize(&b"42".to_vec()), Some(42));
    assert_eq!(parse_usize(&b"+7".to_vec()), Some(7));
    assert_eq!(parse_usize(&b"".to_vec()), None);
    assert_eq!(parse_usize(&b"+".to_vec()), None);
    assert_eq!(parse_usize(&b"4a".to_vec()), None);
    assert_eq!(parse_usize(&b"-1".to_vec()), None);
    assert_eq!(parse_usize(&b"18446744073709551615".to_vec()), Some(usize::MAX));
    assert_eq!(parse_usize(&b"18446744073709551616".to_vec()), None);
}

#[test]
fn parse_records_reads_blocks() {
    let text = b"processor\t: 0\nphysical id\t: 0\ncore id\t\t: 0\n\n\
                 processor\t: 1\nphysical id\t: 0\ncore id\t\t: 1\n\n\
                 processor\t: 2\nphysical id\t: 0\ncore id\t\t: 0\n\n\
                 processor\t: 3\nphysical id\t: 0\ncore id\t\t: 1\n\n"
        .to_vec();
    let recs = parse_records(&text).unwrap();
    assert_eq!(recs, vec![rec(0, 0, 0), rec(1, 0, 1), rec(2, 0, 0), rec(3, 0, 1)]);
}

#[test]
fn parse_records_ignores_other_keys_and_second_colon() {
    let text = b"processor : 5 : 9\nmodel name : some cpu @ 2.0GHz\n\n".to_vec();
    let recs = parse_records(&text).unwrap();
    assert_eq!(recs, vec![rec(5, 10000, 10000)]);
}

#[test]
fn parse_records_keeps_blocks_without_ids_distinct() {
    let text = b"processor : 0\n\nprocessor : 1\n\n".to_vec();
    let recs = parse_records(&text).unwrap();
    assert_eq!(recs, vec![rec(0, 10000, 10000), rec(1, 20000, 20000)]);
}

#[test]
fn parse_records_rejects_line_without_colon() {
    let text = b"processor 0\n\n".to_vec();
    assert_eq!(parse_records(&text), Err(TopologyError::Malformed));
}

#[test]
fn parse_records_rejects_non_numeral_field() {
    let text = b"processor : x\n\n".to_vec();
    assert_eq!(parse_records(&text), Err(TopologyError::Malformed));
    let text = b"processor : 0\nphysical id : ?\n\n".to_vec();
    assert_eq!(parse_records(&text), Err(TopologyError::Malformed));
    let text = b"processor : 0\ncore id : \n\n".to_vec();
    assert_eq!(parse_records(&text), Err(TopologyError::Malformed));
}

#[test]
fn parse_records_drops_trailing_unterminated_block() {
    // a block is committed by its blank separator line
    let text = b"processor : 0\nphysical id : 1\ncore id : 2\n".to_vec();
    let recs = parse_records(&text).unwrap();
    assert_eq!(recs, vec![]);
}

#[test]
fn group_representatives_takes_first_of_each_group_sorted() {
    // six records over three distinct physical cores
    let records = vec![
        rec(4, 1, 0),
        rec(0, 0, 0),
        rec(1, 0, 1),
        rec(2, 0, 0),
        rec(3, 0, 1),
        rec(5, 1, 0),
    ];
    let reps = group_representatives(&records);
    assert_eq!(reps, vec![rec(0, 0, 0), rec(1, 0, 1), rec(4, 1, 0)]);
}

#[test]
fn derive_topology_returns_one_id_per_physical_core() {
    let records = vec![
        rec(0, 0, 0),
        rec(1, 0, 1),
        rec(2, 0, 0),
        rec(3, 0, 1),
    ];
    assert_eq!(derive_topology(&records), Ok(vec![0, 1]));
}

#[test]
fn derive_topology_on_empty_records_is_unavailable() {
    assert_eq!(derive_topology(&vec![]), Err(TopologyError::Unavailable));
}

#[test]
fn derive_topology_from_text_whole_path() {
    let text = b"processor\t: 0\nphysical id\t: 0\ncore id\t\t: 0\n\n\
                 processor\t: 1\nphysical id\t: 1\ncore id\t\t: 0\n\n\
                 processor\t: 2\nphysical id\t: 0\ncore id\t\t: 0\n\n\
                 processor\t: 3\nphysical id\t: 1\ncore id\t\t: 0\n\n"
        .to_vec();
    assert_eq!(derive_topology_from_text(&text), Ok(vec![0, 1]));
}

#[test]
fn derive_topology_from_empty_text_is_unavailable() {
    assert_eq!(derive_topology_from_text(&b"".to_vec()), Err(TopologyError::Unavailable));
}

#[test]
fn masks_give_lowest_set_bit_per_core_record() {
    let records = vec![
        MaskRecord { is_processor_core: true, mask: 0b0011 },
        MaskRecord { is_processor_core: false, mask: 0b0100 },
        MaskRecord { is_processor_core: true, mask: 0b1100 },
    ];
    assert_eq!(representatives_from_masks(&records), Ok(vec![0, 2]));
}

#[test]
fn masks_with_no_core_record_are_unavailable() {
    let records = vec![MaskRecord { is_processor_core: false, mask: 1 }];
    assert_eq!(representatives_from_masks(&records), Err(TopologyError::Unavailable));
    assert_eq!(representatives_from_masks(&vec![]), Err(TopologyError::Unavailable));
}

#[test]
fn zero_mask_on_core_record_is_malformed() {
    let records = vec![
        MaskRecord { is_processor_core: true, mask: 1 },
        MaskRecord { is_processor_core: true, mask: 0 },
    ];
    assert_eq!(representatives_from_masks(&records), Err(TopologyError::Malformed));
}
