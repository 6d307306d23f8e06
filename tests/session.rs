use is31::{Is31, LedMatrix, Transport};

#[derive(Debug, PartialEq)]
struct BusFault;

/// Records every transaction; fails the one with index `fail_at`, and
/// answers reads with `reply`.
#[derive(Debug)]
struct MockBus {
    log: Vec<(u8, Vec<u8>, bool)>,
    fail_at: Option<usize>,
    reply: u8,
}

impl MockBus {
    fn new() -> Self {
        MockBus { log: vec![], fail_at: None, reply: 0 }
    }

    fn failing_at(n: usize) -> Self {
        MockBus { log: vec![], fail_at: Some(n), reply: 0 }
    }

    fn outcome(&mut self, address: u8, bytes: &[u8], read: bool) -> Result<(), BusFault> {
        let n = self.log.len();
        self.log.push((address, bytes.to_vec(), read));
        if self.fail_at == Some(n) { Err(BusFault) } else { Ok(()) }
    }
}

impl Transport for MockBus {
    type Error = BusFault;

    fn write(&mut self, address: u8, bytes: &[u8]) -> Result<(), BusFault> {
        self.outcome(address, bytes, false)
    }

    fn write_read(&mut self, address: u8, bytes: &[u8], buffer: &mut [u8]) -> Result<(), BusFault> {
        let r = self.outcome(address, bytes, true);
        if r.is_ok() {
            for b in buffer.iter_mut() {
                *b = self.reply;
            }
        }
        r
    }
}

fn writes(bus: &MockBus) -> Vec<Vec<u8>> {
    bus.log.iter().map(|(_, b, _)| b.clone()).collect()
}

const UNLOCK: [u8; 2] = [0xfe, 0xc5];

fn select(p: u8) -> Vec<Vec<u8>> {
    vec![UNLOCK.to_vec(), vec![0xfd, p]]
}

#[test]
fn new_resets_on_config_page() {
    let s = Is31::new(MockBus::new()).unwrap();
    let mut want = select(4);
    want.push(vec![0x3f, 0xae]);
    assert_eq!(writes(s.bus()), want);
    assert!(s.bus().log.iter().all(|(a, _, r)| *a == 0x30 && !*r));
}

#[test]
fn new_fails_with_transport_error() {
    let r = Is31::new(MockBus::failing_at(1));
    match r {
        Err((bus, e)) => {
            assert_eq!(e, BusFault);
            assert_eq!(writes(&bus), select(4)[..2].to_vec());
        }
        Ok(_) => panic!("reset succeeded on a failing bus"),
    }
}

#[test]
fn write_led_matrix_of_zero_frame() {
    let mut s = Is31::attach(MockBus::new());
    let m = LedMatrix::new();
    s.write_led_matrix(&m).unwrap();
    let mut want = select(0);
    want.push(vec![0; 181]);
    want.extend(select(1));
    want.push(vec![0; 178]);
    assert_eq!(writes(s.bus()), want);
}

#[test]
fn write_led_matrix_carries_pixels() {
    let mut s = Is31::new(MockBus::new()).unwrap();
    let mut m = LedMatrix::new();
    m.set_pixel(0, 6, 10, 20, 30);
    m.set_led(356, 1);
    s.write_led_matrix(&m).unwrap();
    let w = writes(s.bus());
    assert_eq!(w.len(), 3 + 6);
    assert_eq!(&w[5][0..4], &[0, 30, 20, 10]);
    assert_eq!(w[8][177], 1);
}

#[test]
fn select_page_twice_sends_once() {
    let mut s = Is31::attach(MockBus::new());
    s.select_page(2).unwrap();
    s.select_page(2).unwrap();
    assert_eq!(writes(s.bus()), select(2));
}

#[test]
fn select_page_already_selected_after_reset() {
    let mut s = Is31::new(MockBus::new()).unwrap();
    s.select_page(4).unwrap();
    assert_eq!(s.bus().log.len(), 3);
}

#[test]
fn set_all_led_scales_images() {
    let mut s = Is31::attach(MockBus::new());
    s.set_all_led_scales(0x7f).unwrap();
    let w = writes(s.bus());
    assert_eq!(w.len(), 6);
    assert_eq!(&w[0..2], &select(2)[..]);
    assert_eq!(&w[3..5], &select(3)[..]);
    assert_eq!(w[2].len(), 181);
    assert_eq!(w[5].len(), 178);
    assert_eq!(w[2][0], 0);
    assert_eq!(w[5][0], 0);
    assert!(w[2][1..].iter().all(|b| *b == 0x7f));
    assert!(w[5][1..].iter().all(|b| *b == 0x7f));
}

#[test]
fn set_all_led_scales_zero_and_max() {
    for scale in [0u8, 255u8] {
        let mut s = Is31::attach(MockBus::new());
        s.set_all_led_scales(scale).unwrap();
        let w = writes(s.bus());
        assert_eq!(w[2][0], 0);
        assert!(w[2][1..].iter().all(|b| *b == scale));
        assert!(w[5][1..].iter().all(|b| *b == scale));
    }
}

#[test]
fn set_all_led_scales_stops_at_failed_write() {
    let mut s = Is31::attach(MockBus::failing_at(1));
    let r = s.set_all_led_scales(3);
    assert_eq!(r, Err(BusFault));
    let w = writes(s.bus());
    assert_eq!(w, select(2));
    assert!(!w.iter().any(|b| b == &vec![0xfd, 3]));
}

#[test]
fn failure_forgets_the_page() {
    let mut s = Is31::attach(MockBus::failing_at(3));
    s.select_page(4).unwrap();
    s.set_global_voltage(9).unwrap();
    assert_eq!(s.set_global_voltage(10), Err(BusFault));
    s.set_global_voltage(11).unwrap();
    let mut want = select(4);
    want.push(vec![1, 9]);
    want.push(vec![1, 10]);
    want.extend(select(4));
    want.push(vec![1, 11]);
    assert_eq!(writes(s.bus()), want);
}

#[test]
fn set_global_voltage_writes_register_one() {
    let mut s = Is31::new(MockBus::new()).unwrap();
    s.set_global_voltage(0x80).unwrap();
    let w = writes(s.bus());
    assert_eq!(w.len(), 4);
    assert_eq!(w[3], vec![1, 0x80]);
}

#[test]
fn get_global_voltage_reads_register_one() {
    let mut bus = MockBus::new();
    bus.reply = 0x42;
    let mut s = Is31::new(bus).unwrap();
    let mut buf = [0u8; 1];
    s.get_global_voltage(&mut buf).unwrap();
    assert_eq!(buf, [0x42]);
    let last = s.bus().log.last().unwrap().clone();
    assert_eq!(last, (0x30, vec![1], true));
}

#[test]
fn get_software_shutdown_mode_reads_register_zero() {
    let mut bus = MockBus::new();
    bus.reply = 0x01;
    let mut s = Is31::attach(bus);
    let mut buf = [0u8; 1];
    s.get_software_shutdown_mode(&mut buf).unwrap();
    assert_eq!(buf, [0x01]);
    let log = &s.bus().log;
    assert_eq!(log.len(), 3);
    assert_eq!(log[2], (0x30, vec![0], true));
}

#[test]
fn shutdown_off_sets_bit_zero() {
    let mut bus = MockBus::new();
    bus.reply = 0x10;
    let mut s = Is31::new(bus).unwrap();
    s.set_software_shutdown_mode_off().unwrap();
    let log = &s.bus().log;
    assert_eq!(log.len(), 5);
    assert_eq!(log[3], (0x30, vec![0], true));
    assert_eq!(log[4], (0x30, vec![0, 0x11], false));
}

#[test]
fn shutdown_off_stops_when_read_fails() {
    let mut s = Is31::attach(MockBus::failing_at(2));
    assert_eq!(s.set_software_shutdown_mode_off(), Err(BusFault));
    assert_eq!(s.bus().log.len(), 3);
}

#[test]
fn set_led_0_pages_zero_and_two() {
    let mut s = Is31::attach(MockBus::new());
    s.set_led_0().unwrap();
    let mut want = select(0);
    want.push(vec![0, 0xaa]);
    want.extend(select(2));
    want.push(vec![0, 0xaa]);
    assert_eq!(writes(s.bus()), want);
}

#[test]
fn set_led_1_pages_zero_and_two() {
    let mut s = Is31::attach(MockBus::new());
    s.set_led_1().unwrap();
    let mut want = select(0);
    want.push(vec![1, 0xff, 0xff, 0xff]);
    want.extend(select(2));
    want.push(vec![1, 0xff, 0xff, 0xff]);
    assert_eq!(writes(s.bus()), want);
}

#[test]
fn set_leds_pages_zero_to_three() {
    let mut s = Is31::attach(MockBus::new());
    s.select_page(0).unwrap();
    s.set_leds().unwrap();
    let mut want = select(0);
    for p in 0..4u8 {
        if p > 0 {
            want.extend(select(p));
        }
        want.push(vec![1, 0xff, 0xff, 0xff]);
    }
    assert_eq!(writes(s.bus()), want);
}

#[test]
fn raw_write_goes_to_chip_address() {
    let mut s = Is31::attach(MockBus::new());
    s.write(&[5, 6, 7]).unwrap();
    assert_eq!(s.bus().log, vec![(0x30, vec![5, 6, 7], false)]);
}
