use xenstore_win::ioctl::StoreError;
use xenstore_win::locator::{
    detail_fits, open_outcome, terminated_path, usable_candidates, DETAIL_CAPACITY,
};

#[test]
fn detail_fits_up_to_capacity() {
    assert!(detail_fits(0));
    assert!(detail_fits(DETAIL_CAPACITY as u32));
    assert!(!detail_fits(DETAIL_CAPACITY as u32 + 1));
    assert!(!detail_fits(u32::MAX));
}

#[test]
fn one_oversized_candidate_is_skipped() {
    let required = [100u32, 9000, 200, 8192];
    assert_eq!(usable_candidates(&required), vec![0, 2, 3]);
}

#[test]
fn no_candidates_none_usable() {
    assert!(usable_candidates(&[]).is_empty());
    assert!(usable_candidates(&[9000, 10000]).is_empty());
}

#[test]
fn terminated_path_stops_at_first_nul() {
    let units = [0x5cu16, 0x5c, 0x3f, 0, 0x41, 0];
    assert_eq!(terminated_path(&units), vec![0x5c, 0x5c, 0x3f, 0]);
    assert_eq!(terminated_path(&[0x41, 0x42]), vec![0x41, 0x42, 0]);
    assert_eq!(terminated_path(&[]), vec![0]);
}

#[test]
fn no_device_is_device_not_found() {
    assert_eq!(open_outcome(&[]), Err(StoreError::DeviceNotFound));
    assert_eq!(open_outcome(&[false, false]), Err(StoreError::DeviceNotFound));
}

#[test]
fn first_opened_candidate_wins() {
    assert_eq!(open_outcome(&[false, true, true]), Ok(1));
    assert_eq!(open_outcome(&[true]), Ok(0));
}
