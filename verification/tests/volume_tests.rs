use basedchar::volume::VolumeCell;

#[test]
fn fresh_cell_reads_default_zero() {
    let cell = VolumeCell::new();
    assert_eq!(cell.read(), 0);
    assert_eq!(f32::from_bits(cell.read()), 0.0);
}

#[test]
fn read_returns_last_written_value_exactly() {
    let mut cell = VolumeCell::new();
    let v: f32 = 37.25;
    cell.write(v.to_bits());
    assert_eq!(f32::from_bits(cell.read()), 37.25);
    let w: f32 = 99.875;
    cell.write(w.to_bits());
    assert_eq!(f32::from_bits(cell.read()), 99.875);
}

#[test]
fn write_replaces_value_unconditionally() {
    let mut cell = VolumeCell::new();
    cell.write(u32::MAX);
    cell.write(7);
    assert_eq!(cell.read(), 7);
}
