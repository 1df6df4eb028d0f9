use persistent_evdev::capabilities::{AbsInfoData, Capabilities, CodecError};

fn axis(value: i32, minimum: i32, maximum: i32) -> AbsInfoData {
    AbsInfoData { value, minimum, maximum, fuzz: 4, flat: -8, resolution: 12 }
}

fn empty_caps() -> Capabilities {
    Capabilities {
        properties: vec![],
        keys: vec![],
        relative_axes: vec![],
        absolute_axes: vec![],
        switches: vec![],
        ff: vec![],
        max_ff_effects: 0,
        msc: vec![],
    }
}

fn full_caps() -> Capabilities {
    Capabilities {
        properties: vec![1],
        keys: vec![30, 31, 304],
        relative_axes: vec![0, 1, 8],
        absolute_axes: vec![(5, axis(0, -32768, 32767)), (0, axis(-1, i32::MIN, i32::MAX)), (2, axis(7, 0, 255))],
        switches: vec![0],
        ff: vec![80, 81],
        max_ff_effects: 16,
        msc: vec![4],
    }
}

fn same(a: &Capabilities, b: &Capabilities) -> bool {
    a.properties == b.properties
        && a.keys == b.keys
        && a.relative_axes == b.relative_axes
        && a.absolute_axes == b.absolute_axes
        && a.switches == b.switches
        && a.ff == b.ff
        && a.max_ff_effects == b.max_ff_effects
        && a.msc == b.msc
}

#[test]
fn round_trip_empty_groups() {
    let c = empty_caps();
    let d = Capabilities::decode(&c.encode()).unwrap();
    assert!(same(&c, &d));
}

#[test]
fn round_trip_unsorted_axes() {
    let c = full_caps();
    let d = Capabilities::decode(&c.encode()).unwrap();
    assert!(same(&c, &d));
    assert_eq!(d.absolute_axes[0].0, 5);
    assert_eq!(d.absolute_axes[1].1.minimum, i32::MIN);
}

#[test]
fn encoding_of_empty_descriptor() {
    let b = empty_caps().encode();
    // header, body length, effect-slot maximum, six empty code groups, no axes
    assert_eq!(b.len(), 5 + 8 + 9 + 6 * 9 + 9);
    assert_eq!(&b[0..5], &[0x50, 0x45, 0x56, 0x43, 2]);
    assert_eq!(&b[5..13], &[72, 0, 0, 0, 0, 0, 0, 0]);
    let tags: Vec<u8> = (0..8).map(|k| b[13 + 9 * k]).collect();
    assert_eq!(tags, vec![1, 2, 3, 4, 5, 6, 7, 8]);
}

#[test]
fn encoding_of_one_key() {
    let mut c = empty_caps();
    c.keys = vec![0x0102];
    c.max_ff_effects = 3;
    let b = c.encode();
    assert_eq!(&b[13..22], &[1, 3, 0, 0, 0, 0, 0, 0, 0]);
    // properties group: tag, count zero
    assert_eq!(&b[22..31], &[2, 0, 0, 0, 0, 0, 0, 0, 0]);
    // keys group: tag, count one, then the code little-endian
    assert_eq!(&b[31..40], &[3, 1, 0, 0, 0, 0, 0, 0, 0]);
    assert_eq!(&b[40..42], &[0x02, 0x01]);
}

/// The entry with the bytes `start..end` of its groups taken out, its length mended.
fn without(b: &[u8], start: usize, end: usize) -> Vec<u8> {
    let mut out: Vec<u8> = b[..start].to_vec();
    out.extend_from_slice(&b[end..]);
    let body = (out.len() - 13) as u64;
    out[5..13].copy_from_slice(&body.to_le_bytes());
    out
}

#[test]
fn missing_misc_group_reads_as_empty() {
    let b = empty_caps().encode();
    // the misc group is the seventh: tag and count
    let start = 13 + 9 * 6;
    assert_eq!(b[start], 7);
    let cut = without(&b, start, start + 9);
    assert_eq!(cut.len(), 76);
    let d = Capabilities::load(Some(cut)).unwrap();
    assert!(same(&d, &empty_caps()));
}

#[test]
fn missing_groups_read_as_empty() {
    let mut c = empty_caps();
    c.keys = vec![30];
    c.switches = vec![1];
    c.max_ff_effects = 4;
    let b = c.encode();
    // effects 9, properties 9, keys 11, relative 9: switches starts after them
    let start = 13 + 9 + 9 + 11 + 9;
    assert_eq!(b[start], 5);
    let cut = without(&b, start, start + 11);
    let d = Capabilities::decode(&cut).unwrap();
    assert_eq!(d.keys, vec![30]);
    assert!(d.switches.is_empty());
    assert_eq!(d.max_ff_effects, 4);
    // leaving out the effect-slot maximum reads as zero
    let cut = without(&b, 13, 22);
    assert_eq!(Capabilities::decode(&cut).unwrap().max_ff_effects, 0);
    // leaving out every group gives the empty descriptor
    let cut = without(&b, 13, b.len());
    assert!(same(&Capabilities::decode(&cut).unwrap(), &empty_caps()));
}

#[test]
fn torn_write_at_group_boundary_is_malformed() {
    let b = full_caps().encode();
    let cut = b[..13 + 9].to_vec();
    assert_eq!(Capabilities::decode(&cut).unwrap_err(), CodecError::MalformedCache);
}

#[test]
fn groups_out_of_order_are_malformed() {
    let b = empty_caps().encode();
    // swap the properties and keys groups
    let mut swapped = b.clone();
    swapped[22..31].copy_from_slice(&b[31..40]);
    swapped[31..40].copy_from_slice(&b[22..31]);
    assert_eq!(Capabilities::decode(&swapped).unwrap_err(), CodecError::MalformedCache);
}

#[test]
fn save_writes_the_encoding() {
    let c = full_caps();
    assert_eq!(c.save(), c.encode());
}

#[test]
fn decode_rejects_garbage() {
    assert_eq!(Capabilities::decode(&vec![1, 2, 3]).unwrap_err(), CodecError::MalformedCache);
    assert_eq!(Capabilities::decode(&vec![]).unwrap_err(), CodecError::MalformedCache);
    assert_eq!(
        Capabilities::decode(&b"{\"keys\":[]}".to_vec()).unwrap_err(),
        CodecError::MalformedCache
    );
}

#[test]
fn decode_rejects_torn_write() {
    let b = full_caps().encode();
    for cut in [5, 12, 13, 20, b.len() - 1] {
        assert_eq!(Capabilities::decode(&b[..cut].to_vec()).unwrap_err(), CodecError::MalformedCache);
    }
}

#[test]
fn decode_rejects_trailing_bytes() {
    let mut b = full_caps().encode();
    b.push(0);
    assert_eq!(Capabilities::decode(&b).unwrap_err(), CodecError::MalformedCache);
}

#[test]
fn decode_reports_other_schema() {
    let mut b = full_caps().encode();
    b[4] = 1;
    assert_eq!(Capabilities::decode(&b).unwrap_err(), CodecError::UnsupportedSchema);
}

#[test]
fn load_without_entry_is_not_found() {
    assert_eq!(Capabilities::load(None).unwrap_err(), CodecError::NotFound);
}

#[test]
fn load_with_entry_decodes() {
    let c = full_caps();
    let d = Capabilities::load(Some(c.save())).unwrap();
    assert!(same(&c, &d));
}

#[test]
fn validity_of_descriptors() {
    assert!(empty_caps().is_valid());
    assert!(full_caps().is_valid());
    let mut c = full_caps();
    c.msc = vec![4, 4];
    assert!(!c.is_valid());
    let mut c = full_caps();
    c.absolute_axes.push((0, axis(1, 2, 3)));
    assert!(!c.is_valid());
}
