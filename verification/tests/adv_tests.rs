use bondstore::adv::{AdvData, AD_TYPE_FLAGS, AD_TYPE_UUID16_COMPLETE, AD_TYPE_COMPLETE_LOCAL_NAME,
    AD_TYPE_APPEARANCE, FLAGS_LE_ONLY_GENERAL_DISC, APPEARANCE_HID_KEYBOARD, HID_SERVICE,
    BATTERY_SERVICE, DEVICE_INFO_SERVICE, adv_data_key_bytes};

#[test]
fn default_configuration_matches_the_shipped_device() {
    let a = AdvData::default();
    assert_eq!(a.flags, FLAGS_LE_ONLY_GENERAL_DISC);
    assert_eq!(a.appearance, APPEARANCE_HID_KEYBOARD);
    assert_eq!(a.uuids, vec![HID_SERVICE, DEVICE_INFO_SERVICE, BATTERY_SERVICE]);
    assert_eq!(a.name, b"HelloWorld".to_vec());
}

#[test]
fn payload_layout_is_exact() {
    let a = AdvData {
        flags: 0x06,
        uuids: vec![0x1812, 0x180F],
        name: b"Kbd".to_vec(),
        appearance: 0xC1,
    };
    let bytes = a.to_bytes();
    let expected: Vec<u8> = vec![
        2, AD_TYPE_APPEARANCE, 0xC1,
        2, AD_TYPE_FLAGS, 0x06,
        5, AD_TYPE_UUID16_COMPLETE, 0x12, 0x18, 0x0F, 0x18,
        4, AD_TYPE_COMPLETE_LOCAL_NAME, 0x4B, 0x62, 0x64,
    ];
    assert_eq!(bytes, expected);
}

#[test]
fn empty_uuid_list_and_name_still_encode() {
    let a = AdvData { flags: 0x06, uuids: Vec::new(), name: Vec::new(), appearance: 0 };
    let bytes = a.to_bytes();
    let expected: Vec<u8> = vec![
        2, AD_TYPE_APPEARANCE, 0,
        2, AD_TYPE_FLAGS, 0x06,
        1, AD_TYPE_UUID16_COMPLETE,
        1, AD_TYPE_COMPLETE_LOCAL_NAME,
    ];
    assert_eq!(bytes, expected);
}

#[test]
fn configuration_key_is_stable() {
    assert_eq!(adv_data_key_bytes(), b"AdvData".to_vec());
}
