use std::collections::{HashMap, VecDeque};

use gcui::decimal::{decimal_text, fixed_text, parse_u16};
use gcui::frame::{letter_cmd, read_cmd, register, write_cmd};
use gcui::gcu::{next_line, Gcu, GcuError, LineStep, Setting};
use gcui::link::{line_config, LineConfig, Link, LinkError};

/// A link that echoes what is written and then hands out a fixed byte stream.
struct Script {
    rx: VecDeque<u8>,
    written: Vec<u8>,
    echo: bool,
    fail_write: bool,
    config: Option<LineConfig>,
    timeout: Option<u64>,
    signal: Option<bool>,
}

impl Script {
    fn new(reply: &[u8]) -> Script {
        Script {
            rx: reply.iter().copied().collect(),
            written: Vec::new(),
            echo: true,
            fail_write: false,
            config: None,
            timeout: None,
            signal: None,
        }
    }
}

impl Link for Script {
    fn configure(&mut self, config: &LineConfig) -> Result<(), LinkError> {
        self.config = Some(*config);
        Ok(())
    }
    fn set_timeout_ms(&mut self, millis: u64) -> Result<(), LinkError> {
        self.timeout = Some(millis);
        Ok(())
    }
    fn write_all(&mut self, bytes: &[u8]) -> Result<(), LinkError> {
        if self.fail_write {
            return Err(LinkError::Failed);
        }
        self.written.extend_from_slice(bytes);
        if self.echo {
            for (i, b) in bytes.iter().enumerate() {
                self.rx.insert(i, *b);
            }
        }
        Ok(())
    }
    fn read_byte(&mut self) -> Result<u8, LinkError> {
        self.rx.pop_front().ok_or(LinkError::Timeout)
    }
    fn set_signal(&mut self, high: bool) -> Result<(), LinkError> {
        self.signal = Some(high);
        Ok(())
    }
    fn pause_ms(&mut self, _millis: u64) {}
}

/// A simulated device with a register map, which echoes every command.
struct Device {
    regs: HashMap<u8, u16>,
    rx: VecDeque<u8>,
    version: Vec<u8>,
    signal: Option<bool>,
}

impl Device {
    fn new() -> Device {
        Device { regs: HashMap::new(), rx: VecDeque::new(), version: b"GCU-1.2".to_vec(), signal: None }
    }
}

impl Link for Device {
    fn configure(&mut self, _config: &LineConfig) -> Result<(), LinkError> {
        Ok(())
    }
    fn set_timeout_ms(&mut self, _millis: u64) -> Result<(), LinkError> {
        Ok(())
    }
    fn write_all(&mut self, bytes: &[u8]) -> Result<(), LinkError> {
        self.rx.extend(bytes.iter().copied());
        let text = std::str::from_utf8(bytes).unwrap();
        let reply = match &text[..1] {
            "V" => {
                let mut r = self.version.clone();
                r.extend_from_slice(b"\rOK\r");
                r
            }
            "P" => b"42\rOK\r".to_vec(),
            "A" => b"17\rOK\r".to_vec(),
            "Q" => b"OK\r".to_vec(),
            "R" => {
                let a: u8 = text[1..3].parse().unwrap();
                match self.regs.get(&a) {
                    Some(v) => format!("{}\rOK\r", v).into_bytes(),
                    None => b"Error\r".to_vec(),
                }
            }
            "W" => {
                let a: u8 = text[1..3].parse().unwrap();
                let v: u16 = text[3..7].parse().unwrap();
                self.regs.insert(a, v);
                b"OK\r".to_vec()
            }
            _ => b"Error\r".to_vec(),
        };
        self.rx.extend(reply);
        Ok(())
    }
    fn read_byte(&mut self) -> Result<u8, LinkError> {
        self.rx.pop_front().ok_or(LinkError::Timeout)
    }
    fn set_signal(&mut self, high: bool) -> Result<(), LinkError> {
        self.signal = Some(high);
        Ok(())
    }
    fn pause_ms(&mut self, _millis: u64) {}
}

fn setting(level: u16, base: u16) -> Setting {
    Setting::new(level, base, base + 1, base + 2, base + 3, base + 4, base + 5, base + 6, base + 7, base + 8)
}

#[test]
fn write_word_then_read_word_round_trips() {
    let mut gcu = Gcu::new(Device::new()).unwrap();
    for address in [0u8, 1, 5, 50, 98, 99] {
        for data in [0u16, 1, 9, 10, 123, 1000, 4321, 9999] {
            gcu.write_word(address, data).unwrap();
            assert_eq!(gcu.read_word(address).unwrap(), data);
        }
    }
}

#[test]
fn register_blocks_are_distinct_and_spaced() {
    for level in 1u16..=3 {
        let addrs: Vec<u8> = (0..9).map(|k| register(level, k)).collect();
        let expected: Vec<u8> = (0..9).map(|k| (20 * level + 2 * k) as u8).collect();
        assert_eq!(addrs, expected);
        for i in 0..9 {
            for j in 0..9 {
                if i != j {
                    assert_ne!(addrs[i], addrs[j]);
                }
            }
        }
    }
    assert_eq!(register(3, 8), 76);
}

fn table_text(ss: &[Setting]) -> String {
    let mut body = String::new();
    if !ss.is_empty() {
        body.push_str("power_level,high_pressure,mid_pressure,low_pressure,high_pulse,mid_pulse,low_pulse,high_slope,low_slope,volts\n");
        for s in ss {
            body.push_str(&format!(
                "{},{},{},{},{},{},{},{},{},{}\n",
                s.power_level, s.high_pressure, s.mid_pressure, s.low_pressure, s.high_pulse,
                s.mid_pulse, s.low_pulse, s.high_slope, s.low_slope, s.volts
            ));
        }
    }
    body
}

fn round_trip(ss: Vec<Setting>) {
    let mut first = Gcu::new(Device::new()).unwrap();
    first.deserialize_settings(table_text(&ss).as_bytes()).unwrap();
    assert_eq!(first.settings(), &ss);
    let text = first.serialize_settings().unwrap();
    assert_eq!(text, table_text(&ss).into_bytes());
    let mut second = Gcu::new(Device::new()).unwrap();
    second.deserialize_settings(&text).unwrap();
    assert_eq!(second.settings(), &ss);
}

#[test]
fn settings_round_trip_none() {
    round_trip(Vec::new());
}

#[test]
fn settings_round_trip_one() {
    round_trip(vec![setting(1, 100)]);
}

#[test]
fn settings_round_trip_three() {
    round_trip(vec![setting(1, 100), setting(2, 65000), Setting::new(3, 0, 0, 0, 0, 0, 0, 0, 0, 65535)]);
}

#[test]
fn serialized_text_is_header_then_rows() {
    let mut gcu = Gcu::new(Device::new()).unwrap();
    gcu.deserialize_settings(b"power_level,high_pressure,mid_pressure,low_pressure,high_pulse,mid_pulse,low_pulse,high_slope,low_slope,volts\n1,2,3,4,5,6,7,8,9,10\n").unwrap();
    let text = gcu.serialize_settings().unwrap();
    assert_eq!(
        String::from_utf8(text).unwrap(),
        "power_level,high_pressure,mid_pressure,low_pressure,high_pulse,mid_pulse,low_pulse,high_slope,low_slope,volts\n1,2,3,4,5,6,7,8,9,10\n"
    );
    let empty = Gcu::new(Device::new()).unwrap();
    assert!(empty.serialize_settings().unwrap().is_empty());
}

#[test]
fn deserialize_maps_columns_by_header_name() {
    let mut gcu = Gcu::new(Device::new()).unwrap();
    gcu.deserialize_settings(b"volts,power_level,high_pressure,mid_pressure,low_pressure,high_pulse,mid_pulse,low_pulse,high_slope,low_slope,extra\n10,1,2,3,4,5,6,7,8,9,x\n").unwrap();
    assert_eq!(gcu.settings(), &vec![Setting::new(1, 2, 3, 4, 5, 6, 7, 8, 9, 10)]);
}

#[test]
fn deserialize_rejects_bad_tables() {
    let mut gcu = Gcu::new(Device::new()).unwrap();
    // a missing column
    assert_eq!(
        gcu.deserialize_settings(b"power_level,high_pressure\n1,2\n"),
        Err(GcuError::Persistence)
    );
    // a short row
    assert_eq!(
        gcu.deserialize_settings(b"power_level,high_pressure,mid_pressure,low_pressure,high_pulse,mid_pulse,low_pulse,high_slope,low_slope,volts\n1,2,3\n"),
        Err(GcuError::Persistence)
    );
    // a value that is no u16
    assert_eq!(
        gcu.deserialize_settings(b"power_level,high_pressure,mid_pressure,low_pressure,high_pulse,mid_pulse,low_pulse,high_slope,low_slope,volts\n1,2,3,4,5,6,7,8,9,70000\n"),
        Err(GcuError::Persistence)
    );
    assert!(gcu.settings().is_empty());
}

#[test]
fn deserialize_keeps_rows_before_a_bad_one() {
    let mut gcu = Gcu::new(Device::new()).unwrap();
    assert_eq!(
        gcu.deserialize_settings(b"power_level,high_pressure,mid_pressure,low_pressure,high_pulse,mid_pulse,low_pulse,high_slope,low_slope,volts\n1,2,3,4,5,6,7,8,9,10\n2,abc,3,4,5,6,7,8,9,10\n3,2,3,4,5,6,7,8,9,10\n"),
        Err(GcuError::Persistence)
    );
    assert_eq!(gcu.settings(), &vec![Setting::new(1, 2, 3, 4, 5, 6, 7, 8, 9, 10)]);
}

#[test]
fn next_line_classifies_one_line() {
    match next_line(Some(b"12".to_vec()), b"OK".to_vec()) {
        LineStep::Done(reply) => {
            assert!(reply.ok);
            assert_eq!(reply.payload, Some(b"12".to_vec()));
        }
        _ => panic!("OK must complete the reply"),
    }
    match next_line(None, b"Error".to_vec()) {
        LineStep::Done(reply) => {
            assert!(!reply.ok);
            assert_eq!(reply.payload, None);
        }
        _ => panic!("Error must complete the reply"),
    }
    match next_line(Some(b"1".to_vec()), b"2".to_vec()) {
        LineStep::More(p) => assert_eq!(p, Some(b"2".to_vec())),
        _ => panic!("a data line must become the payload"),
    }
    assert!(matches!(next_line(None, vec![0xff]), LineStep::NotText));
}

#[test]
fn disconnect_fails_without_a_reply() {
    let mut gcu = Gcu::new(Script::new(b"")).unwrap();
    gcu.connect().unwrap();
    assert_eq!(gcu.disconnect(), Err(GcuError::Io(LinkError::Timeout)));
    assert_eq!(gcu.link().signal, Some(true));
    let mut gcu = Gcu::new(Script::new(b"OK\r")).unwrap();
    gcu.connect().unwrap();
    assert_eq!(gcu.disconnect(), Ok(()));
    assert_eq!(gcu.link().signal, Some(false));
    assert!(gcu.link().rx.is_empty());
}

#[test]
fn data_line_then_ok_gives_payload() {
    let mut gcu = Gcu::new(Script::new(b"123\rOK\r")).unwrap();
    let reply = gcu.fetch_response().unwrap();
    assert!(reply.ok);
    assert_eq!(reply.payload, Some(b"123".to_vec()));
}

#[test]
fn only_the_last_data_line_is_kept() {
    let mut gcu = Gcu::new(Script::new(b"first\rsecond\rOK\r")).unwrap();
    let reply = gcu.fetch_response().unwrap();
    assert!(reply.ok);
    assert_eq!(reply.payload, Some(b"second".to_vec()));
}

#[test]
fn error_alone_gives_failure_without_payload() {
    let mut gcu = Gcu::new(Script::new(b"Error\r")).unwrap();
    let reply = gcu.fetch_response().unwrap();
    assert!(!reply.ok);
    assert_eq!(reply.payload, None);
    let mut gcu = Gcu::new(Script::new(b"Error\r")).unwrap();
    assert_eq!(gcu.read_word(5), Err(GcuError::Protocol));
}

#[test]
fn short_echo_fails_with_timeout() {
    let mut link = Script::new(b"");
    link.echo = false;
    link.rx.extend(b"R05".iter().copied());
    let mut gcu = Gcu::new(link).unwrap();
    let cmd = read_cmd(5);
    assert_eq!(gcu.send_cmd(&cmd), Err(GcuError::Io(LinkError::Timeout)));
    assert_eq!(gcu.link().written, b"R050000".to_vec());
}

#[test]
fn full_echo_is_consumed() {
    let mut gcu = Gcu::new(Script::new(b"77\rOK\r")).unwrap();
    assert_eq!(gcu.send_cmd(&read_cmd(7)), Ok(()));
    let reply = gcu.fetch_response().unwrap();
    assert_eq!(reply.payload, Some(b"77".to_vec()));
}

#[test]
fn version_reads_data_line() {
    let mut gcu = Gcu::new(Script::new(b"GCU-1.2\rOK\r")).unwrap();
    assert_eq!(gcu.version().unwrap(), "GCU-1.2");
    assert_eq!(gcu.link().written, b"V      ".to_vec());
    let mut dev = Gcu::new(Device::new()).unwrap();
    assert_eq!(dev.version().unwrap(), "GCU-1.2");
}

#[test]
fn version_without_data_is_protocol_error() {
    let mut gcu = Gcu::new(Script::new(b"OK\r")).unwrap();
    assert_eq!(gcu.version(), Err(GcuError::Protocol));
}

#[test]
fn non_utf8_line_is_parse_error() {
    let mut gcu = Gcu::new(Script::new(b"\xff\xfe\rOK\r")).unwrap();
    assert_eq!(gcu.version(), Err(GcuError::Parse));
}

#[test]
fn non_numeric_payload_is_parse_error() {
    let mut gcu = Gcu::new(Script::new(b"abc\rOK\r")).unwrap();
    assert_eq!(gcu.pressure(), Err(GcuError::Parse));
}

#[test]
fn unterminated_line_is_reported() {
    let long = vec![b'1'; 300];
    let mut gcu = Gcu::new(Script::new(&long)).unwrap();
    assert!(matches!(gcu.fetch_response(), Err(GcuError::Unterminated)));
}

#[test]
fn missing_reply_is_timeout() {
    let mut gcu = Gcu::new(Script::new(b"")).unwrap();
    assert_eq!(gcu.pulse_duration(), Err(GcuError::Io(LinkError::Timeout)));
}

#[test]
fn pressure_and_pulse_duration() {
    let mut gcu = Gcu::new(Device::new()).unwrap();
    assert_eq!(gcu.pressure(), Ok(42));
    assert_eq!(gcu.pulse_duration(), Ok(17));
}

#[test]
fn write_word_ignores_error_status() {
    let mut gcu = Gcu::new(Script::new(b"Error\r")).unwrap();
    assert_eq!(gcu.write_word(3, 12), Ok(()));
    assert_eq!(gcu.link().written, b"W030012".to_vec());
}

#[test]
fn read_settings_stages_three_levels() {
    let mut dev = Device::new();
    for level in 1u8..=3 {
        for k in 0u8..9 {
            dev.regs.insert(20 * level + 2 * k, (level as u16) * 100 + k as u16);
        }
    }
    let mut gcu = Gcu::new(dev).unwrap();
    gcu.read_settings().unwrap();
    assert_eq!(gcu.settings(), &vec![setting(1, 100), setting(2, 200), setting(3, 300)]);
}

#[test]
fn read_settings_stops_at_first_failure() {
    let mut dev = Device::new();
    for k in 0u8..9 {
        dev.regs.insert(20 + 2 * k, k as u16);
    }
    let mut gcu = Gcu::new(dev).unwrap();
    assert_eq!(gcu.read_settings(), Err(GcuError::Protocol));
    assert_eq!(gcu.settings().len(), 1);
}

#[test]
fn write_settings_writes_the_block() {
    let mut gcu = Gcu::new(Device::new()).unwrap();
    gcu.deserialize_settings(b"power_level,high_pressure,mid_pressure,low_pressure,high_pulse,mid_pulse,low_pulse,high_slope,low_slope,volts\n2,11,12,13,14,15,16,17,18,19\n").unwrap();
    gcu.write_settings(0).unwrap();
    for k in 0u8..9 {
        assert_eq!(gcu.link().regs.get(&(40 + 2 * k)), Some(&(11 + k as u16)));
    }
}

#[test]
fn write_settings_rejects_unframeable_values() {
    let mut gcu = Gcu::new(Device::new()).unwrap();
    gcu.deserialize_settings(b"power_level,high_pressure,mid_pressure,low_pressure,high_pulse,mid_pulse,low_pulse,high_slope,low_slope,volts\n5,1,1,1,1,1,1,1,1,1\n1,10000,1,1,1,1,1,1,1,1\n").unwrap();
    assert_eq!(gcu.write_settings(0), Err(GcuError::OutOfRange));
    assert_eq!(gcu.write_settings(1), Err(GcuError::OutOfRange));
    assert!(gcu.link().regs.is_empty());
}

#[test]
fn connect_and_disconnect_drive_the_enable_line() {
    let mut gcu = Gcu::new(Device::new()).unwrap();
    gcu.connect().unwrap();
    assert_eq!(gcu.link().signal, Some(true));
    gcu.disconnect().unwrap();
    assert_eq!(gcu.link().signal, Some(false));
}

#[test]
fn new_sets_up_the_line() {
    let gcu = Gcu::new(Script::new(b"")).unwrap();
    assert_eq!(gcu.link().config, Some(line_config()));
    assert_eq!(gcu.link().timeout, Some(1000));
    let c = line_config();
    assert_eq!((c.baud_rate, c.data_bits, c.parity, c.stop_bits, c.flow_control), (9600, 8, false, 1, false));
}

#[test]
fn frames_are_seven_fixed_width_bytes() {
    assert_eq!(read_cmd(5), b"R050000".to_vec());
    assert_eq!(write_cmd(5, 123), b"W050123".to_vec());
    assert_eq!(write_cmd(99, 9999), b"W999999".to_vec());
    assert_eq!(letter_cmd(b'V'), b"V      ".to_vec());
    assert_eq!(letter_cmd(b'Q'), b"Q      ".to_vec());
}

#[test]
fn decimal_text_and_parsing() {
    assert_eq!(decimal_text(0), b"0".to_vec());
    assert_eq!(decimal_text(65535), b"65535".to_vec());
    assert_eq!(fixed_text(7, 2), b"07".to_vec());
    assert_eq!(fixed_text(123, 4), b"0123".to_vec());
    assert_eq!(parse_u16(b"0123"), Some(123));
    assert_eq!(parse_u16(b"+12"), Some(12));
    assert_eq!(parse_u16(b"65535"), Some(65535));
    assert_eq!(parse_u16(b"65536"), None);
    assert_eq!(parse_u16(b""), None);
    assert_eq!(parse_u16(b"+"), None);
    assert_eq!(parse_u16(b"-1"), None);
    assert_eq!(parse_u16(b"12a"), None);
    assert_eq!(parse_u16(b"99999999999"), None);
}

#[test]
fn limits_can_be_set() {
    let mut gcu = Gcu::new(Script::new(b"12345\rOK\r")).unwrap();
    gcu.set_limits(4, 64);
    assert!(matches!(gcu.fetch_response(), Err(GcuError::Unterminated)));
    let mut gcu = Gcu::new(Script::new(b"1\r2\r3\rOK\r")).unwrap();
    gcu.set_limits(256, 3);
    assert!(matches!(gcu.fetch_response(), Err(GcuError::Unterminated)));
    let mut gcu = Gcu::new(Script::new(b"1\r2\r3\rOK\r")).unwrap();
    gcu.set_limits(256, 4);
    assert_eq!(gcu.fetch_response().unwrap().payload, Some(b"3".to_vec()));
}

#[test]
fn reply_reading_stops_at_the_status_line() {
    let mut gcu = Gcu::new(Script::new(b"123\rOK\rXYZ\rOK\r")).unwrap();
    let reply = gcu.fetch_response().unwrap();
    assert_eq!(reply.payload, Some(b"123".to_vec()));
    assert_eq!(gcu.link().rx.iter().copied().collect::<Vec<u8>>(), b"XYZ\rOK\r".to_vec());
    let mut gcu = Gcu::new(Script::new(b"Error\rnext")).unwrap();
    assert!(!gcu.fetch_response().unwrap().ok);
    assert_eq!(gcu.link().rx.iter().copied().collect::<Vec<u8>>(), b"next".to_vec());
    let mut gcu = Gcu::new(Script::new(&[0xff, 0x0d, b'O', b'K', 0x0d])).unwrap();
    assert!(matches!(gcu.fetch_response(), Err(GcuError::Parse)));
    assert_eq!(gcu.link().rx.iter().copied().collect::<Vec<u8>>(), b"OK\r".to_vec());
}

#[test]
fn typed_operations_consume_exactly_their_reply() {
    let mut gcu = Gcu::new(Script::new(b"42\rOK\r")).unwrap();
    assert_eq!(gcu.read_word(5), Ok(42));
    assert_eq!(gcu.link().written, b"R050000".to_vec());
    assert!(gcu.link().rx.is_empty());
    let mut gcu = Gcu::new(Script::new(b"OK\r")).unwrap();
    assert_eq!(gcu.write_word(5, 123), Ok(()));
    assert_eq!(gcu.link().written, b"W050123".to_vec());
    assert!(gcu.link().rx.is_empty());
    let mut gcu = Gcu::new(Script::new(b"Error\r")).unwrap();
    assert_eq!(gcu.version(), Err(GcuError::Protocol));
    assert!(gcu.link().rx.is_empty());
    let mut gcu = Gcu::new(Script::new(b"Error\r")).unwrap();
    assert_eq!(gcu.pressure(), Err(GcuError::Protocol));
    assert!(gcu.link().rx.is_empty());
}

#[test]
fn failed_write_reads_no_echo() {
    let mut link = Script::new(b"R050000");
    link.echo = false;
    link.fail_write = true;
    let mut gcu = Gcu::new(link).unwrap();
    assert_eq!(gcu.send_cmd(&read_cmd(5)), Err(GcuError::Io(LinkError::Failed)));
    assert_eq!(gcu.link().rx.len(), 7);
}

#[test]
fn write_settings_passes_on_an_echo_timeout() {
    let mut link = Script::new(b"");
    link.echo = false;
    let mut gcu = Gcu::new(link).unwrap();
    gcu.deserialize_settings(b"power_level,high_pressure,mid_pressure,low_pressure,high_pulse,mid_pulse,low_pulse,high_slope,low_slope,volts\n1,1,1,1,1,1,1,1,1,1\n").unwrap();
    assert_eq!(gcu.write_settings(0), Err(GcuError::Io(LinkError::Timeout)));
    assert_eq!(gcu.link().written, b"W200001".to_vec());
}
