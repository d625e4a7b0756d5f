use dsmr5::types::UFixedDouble;
use dsmr_to_zaptec::dsmr::{readout_is_parsable_exec, readout_powers, select_powers, PowerObject};

const ISK_TELEGRAM: &str = "/ISK5\\2M550E-1012\r\n\r\n1-3:0.2.8(50)\r\n0-0:1.0.0(190320181403W)\r\n0-0:96.1.1(4530303433303037303532383730333138)\r\n1-0:1.8.1(000576.239*kWh)\r\n1-0:1.8.2(000465.162*kWh)\r\n1-0:2.8.1(000000.000*kWh)\r\n1-0:2.8.2(000000.000*kWh)\r\n0-0:96.14.0(0002)\r\n1-0:1.7.0(00.193*kW)\r\n1-0:2.7.0(00.000*kW)\r\n0-0:96.7.21(00009)\r\n0-0:96.7.9(00008)\r\n1-0:99.97.0(6)(0-0:96.7.19)(190201235231W)(0000003231*s)(190212214204W)(0000001489*s)(190212215426W)(0000000315*s)(190310230314W)(0000000295*s)(190316085447W)(0000000230*s)(190316123141W)(0000000516*s)\r\n1-0:32.32.0(00006)\r\n1-0:32.36.0(00001)\r\n0-0:96.13.0()\r\n1-0:32.7.0(236.1*V)\r\n1-0:31.7.0(001*A)\r\n1-0:21.7.0(00.193*kW)\r\n1-0:22.7.0(00.000*kW)\r\n0-1:24.1.0(003)\r\n0-1:96.1.0(4730303332353635353335353230313137)\r\n0-1:24.2.1(190320181003W)(00304.089*m3)\r\n!67B1\r\n";

fn buffer_of(text: &str) -> [u8; 2048] {
    let mut buffer = [0u8; 2048];
    buffer[..text.len()].copy_from_slice(text.as_bytes());
    buffer
}

fn kw(text: &str) -> UFixedDouble {
    UFixedDouble::parse(text, 5, 3).unwrap()
}

#[test]
fn readout_powers_from_meter_telegram() {
    let powers = readout_powers(&buffer_of(ISK_TELEGRAM)).unwrap();
    assert_eq!(f64::from(&powers.delivered), 0.193);
    assert_eq!(f64::from(&powers.received), 0.0);
}

#[test]
fn readout_powers_bad_checksum() {
    let corrupted = ISK_TELEGRAM.replace("!67B1", "!67B2");
    assert!(readout_powers(&buffer_of(&corrupted)).is_none());
}

#[test]
fn readout_powers_garbage() {
    assert!(readout_powers(&[0u8; 2048]).is_none());
}

#[test]
fn select_powers_takes_first_of_each() {
    let objects = vec![
        PowerObject::Other,
        PowerObject::Received(kw("(01.500*kW)")),
        PowerObject::Delivered(kw("(00.250*kW)")),
        PowerObject::Received(kw("(09.999*kW)")),
        PowerObject::Delivered(kw("(08.888*kW)")),
    ];
    let powers = select_powers(objects).unwrap();
    assert_eq!(f64::from(&powers.received), 1.5);
    assert_eq!(f64::from(&powers.delivered), 0.25);
}

#[test]
fn select_powers_delivered_first() {
    let objects = vec![
        PowerObject::Delivered(kw("(02.000*kW)")),
        PowerObject::Other,
        PowerObject::Received(kw("(03.000*kW)")),
    ];
    let powers = select_powers(objects).unwrap();
    assert_eq!(f64::from(&powers.received), 3.0);
    assert_eq!(f64::from(&powers.delivered), 2.0);
}

#[test]
fn select_powers_missing_kind() {
    assert!(select_powers(vec![PowerObject::Received(kw("(01.000*kW)"))]).is_none());
    assert!(select_powers(vec![PowerObject::Delivered(kw("(01.000*kW)")), PowerObject::Other]).is_none());
    assert!(select_powers(Vec::new()).is_none());
}

#[test]
fn parsable_meter_telegram() {
    assert!(readout_is_parsable_exec(&buffer_of(ISK_TELEGRAM)));
    assert!(readout_is_parsable_exec(&[0u8; 2048]));
}

#[test]
fn non_ascii_header_is_parsable() {
    let text = ISK_TELEGRAM.replace("ISK5", "ISK\u{e9}");
    let buffer = buffer_of(&text);
    assert!(readout_is_parsable_exec(&buffer));
    // The checksum no longer matches the changed header.
    assert!(readout_powers(&buffer).is_none());
}

#[test]
fn non_ascii_text_message_is_parsable() {
    let text = ISK_TELEGRAM.replace("0-0:96.13.0()", "0-0:96.13.0(\u{e9}t\u{e9})");
    assert!(readout_is_parsable_exec(&buffer_of(&text)));
}

#[test]
fn non_ascii_slave_reference_is_not_parsable() {
    let text = ISK_TELEGRAM.replace("0-1:24.1.0(003)", "0-\u{e9}24.1.0(003)");
    assert!(!readout_is_parsable_exec(&buffer_of(&text)));
}

#[test]
fn non_ascii_timestamp_is_not_parsable() {
    let text = ISK_TELEGRAM.replace("0-0:1.0.0(190320181403W)", "0-0:1.0.0(1903\u{e9}0181403W)");
    assert!(!readout_is_parsable_exec(&buffer_of(&text)));
}

#[test]
fn invalid_utf8_is_parsable_and_refused() {
    let mut buffer = buffer_of(ISK_TELEGRAM);
    buffer[3] = 0xff;
    assert!(readout_is_parsable_exec(&buffer));
    assert!(readout_powers(&buffer).is_none());
}

#[test]
fn late_decimal_point_on_other_channel_is_parsable() {
    let text = ISK_TELEGRAM.replace("0-1:24.2.1(190320181003W)(00304.089*m3)", "0-5:24.2.1(190320181003W)(003040890.1*m3)");
    assert!(readout_is_parsable_exec(&buffer_of(&text)));
}

#[test]
fn late_decimal_point_is_not_parsable() {
    let late = ISK_TELEGRAM.replace("(00304.089*m3)", "(003040890.1*m3)");
    assert!(!readout_is_parsable_exec(&buffer_of(&late)));
    let ninth = ISK_TELEGRAM.replace("(00304.089*m3)", "(00304089.1*m3)");
    assert!(readout_is_parsable_exec(&buffer_of(&ninth)));
}
