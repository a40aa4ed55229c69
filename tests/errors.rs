use wiimote_manager::result::{WiimoteDeviceError, WiimoteError};

#[test]
fn device_error_messages() {
    assert_eq!(WiimoteDeviceError::InvalidVendorID(1406).message(), "Invalid vendor ID 1406");
    assert_eq!(WiimoteDeviceError::InvalidProductID(774).message(), "Invalid product ID 774");
    assert_eq!(WiimoteDeviceError::InvalidProductID(0).message(), "Invalid product ID 0");
    assert_eq!(WiimoteDeviceError::InvalidVendorID(65535).message(), "Invalid vendor ID 65535");
    assert_eq!(WiimoteDeviceError::MissingData.message(), "Missing data");
    assert_eq!(WiimoteDeviceError::InvalidChecksum.message(), "Invalid checksum");
    assert_eq!(WiimoteDeviceError::InvalidData.message(), "Invalid data");
}

#[test]
fn manager_error_messages() {
    assert_eq!(WiimoteError::Disconnected.message(), "Disconnected");
    let e = WiimoteError::WiimoteDeviceError(WiimoteDeviceError::InvalidVendorID(10));
    assert_eq!(e.message(), "Invalid vendor ID 10");
}

#[test]
fn device_error_converts_into_manager_error() {
    let e: WiimoteError = WiimoteDeviceError::InvalidChecksum.into();
    assert_eq!(e, WiimoteError::WiimoteDeviceError(WiimoteDeviceError::InvalidChecksum));
    let e = WiimoteError::from(WiimoteDeviceError::InvalidProductID(3));
    assert_eq!(e, WiimoteError::WiimoteDeviceError(WiimoteDeviceError::InvalidProductID(3)));
}
