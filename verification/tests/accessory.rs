use opendut::accessory::MansonHcs3304;

#[test]
fn manson_keeps_its_port_and_termination_channel() {
    let (sender, receiver) = tokio::sync::watch::channel(false);
    let accessory = MansonHcs3304::new(receiver, String::from("/dev/ttyUSB0"));
    assert_eq!(accessory.serial_port(), "/dev/ttyUSB0");
    assert!(!*accessory.get_termination_channel().borrow());
    sender.send(true).unwrap();
    assert!(*accessory.get_termination_channel().borrow());
}
