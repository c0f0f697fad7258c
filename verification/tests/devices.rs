use pxar::format::Device;

#[test]
fn test_linux_devices() {
    let c_dev = libc::makedev(0xabcd_1234, 0xdcba_5678);
    let dev = Device::from_dev_t(c_dev);
    assert_eq!(dev.to_dev_t(), c_dev);
}

#[test]
fn device_numbers() {
    let dev = Device { major: 8, minor: 1 };
    assert_eq!(dev.to_dev_t(), 0x801);
    assert_eq!(dev.to_dev_t(), libc::makedev(8, 1));
    assert_eq!(Device::from_dev_t(0x801), dev);

    let dev = Device {
        major: 0xabcd_1234,
        minor: 0xdcba_5678,
    };
    assert_eq!(dev.to_dev_t(), libc::makedev(0xabcd_1234, 0xdcba_5678));
    assert_eq!(Device::from_dev_t(dev.to_dev_t()), dev);
}
