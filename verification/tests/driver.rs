use eeprom25x::{
    Channel, Eeprom25x, Erase, Error, Line, Model, Signal, Storage, Variant, Wiring,
    WriteProtection,
};
use std::cell::RefCell;
use std::collections::VecDeque;
use std::rc::Rc;

#[derive(Clone, Copy, Debug, PartialEq, Eq)]
enum Wire {
    ChipSelect,
    WriteProtect,
    Hold,
}

#[derive(Clone, Debug, PartialEq, Eq)]
enum Event {
    Level(Wire, bool),
    Transfer(Vec<u8>),
    Write(Vec<u8>),
}

/// A stand-in for the hardware: it records what is asked of it, answers as a
/// device would, and fails at the event it is told to fail at.
struct Bench {
    events: Vec<Event>,
    identity: u8,
    statuses: VecDeque<u8>,
    idle_status: u8,
    fail_at: Option<usize>,
    reading_from: Option<u32>,
}

impl Bench {
    fn answer(&mut self, words: &mut [u8]) {
        if let Some(address) = self.reading_from.take() {
            for (i, word) in words.iter_mut().enumerate() {
                *word = (address as usize + i) as u8;
            }
            return;
        }
        match words.first().copied() {
            Some(0xab) => {
                for word in words.iter_mut() {
                    *word = 0xee;
                }
                let last = words.len() - 1;
                words[last] = self.identity;
            }
            Some(0x0a) => {
                let status = self.statuses.pop_front().unwrap_or(self.idle_status);
                words[0] = 0xee;
                words[1] = status;
            }
            _ => {
                for word in words.iter_mut() {
                    *word = 0xee;
                }
            }
        }
    }

    fn fails_now(&self) -> bool {
        self.fail_at == Some(self.events.len() - 1)
    }
}

struct Bus(Rc<RefCell<Bench>>);

struct Pin(Rc<RefCell<Bench>>, Wire);

impl Channel for Bus {
    type Error = u8;

    fn transfer(&mut self, words: &mut [u8]) -> Result<(), u8> {
        let mut bench = self.0.borrow_mut();
        bench.events.push(Event::Transfer(words.to_vec()));
        if bench.fails_now() {
            return Err(7);
        }
        bench.answer(words);
        Ok(())
    }

    fn write(&mut self, words: &[u8]) -> Result<(), u8> {
        let mut bench = self.0.borrow_mut();
        bench.events.push(Event::Write(words.to_vec()));
        if bench.fails_now() {
            return Err(7);
        }
        if words.len() == 4 && words[0] == 0x03 {
            let address =
                ((words[1] as u32) << 16) | ((words[2] as u32) << 8) | (words[3] as u32);
            bench.reading_from = Some(address);
        }
        Ok(())
    }
}

impl Signal for Pin {
    type Error = i8;

    fn set_high(&mut self) -> Result<(), i8> {
        let mut bench = self.0.borrow_mut();
        let wire = self.1;
        bench.events.push(Event::Level(wire, true));
        if bench.fails_now() {
            return Err(-1);
        }
        Ok(())
    }

    fn set_low(&mut self) -> Result<(), i8> {
        let mut bench = self.0.borrow_mut();
        let wire = self.1;
        bench.events.push(Event::Level(wire, false));
        if bench.fails_now() {
            return Err(-1);
        }
        Ok(())
    }
}

type Device = Eeprom25x<Bus, Pin, Pin, Pin>;

fn bench() -> Rc<RefCell<Bench>> {
    Rc::new(RefCell::new(Bench {
        events: Vec::new(),
        identity: 0x29,
        statuses: VecDeque::new(),
        idle_status: 0,
        fail_at: None,
        reading_from: None,
    }))
}

fn attach(bench: &Rc<RefCell<Bench>>, variant: Variant) -> Result<Device, Error<u8, i8>> {
    Eeprom25x::new(
        Bus(bench.clone()),
        Pin(bench.clone(), Wire::ChipSelect),
        Pin(bench.clone(), Wire::WriteProtect),
        Pin(bench.clone(), Wire::Hold),
        variant,
    )
}

/// A started device on a bench whose record is empty again.
fn started(variant: Variant) -> (Rc<RefCell<Bench>>, Device) {
    let bench = bench();
    let device = match attach(&bench, variant) {
        Ok(device) => device,
        Err(_) => panic!("the device did not start"),
    };
    bench.borrow_mut().events.clear();
    (bench, device)
}

fn small() -> Variant {
    Variant::of(Model::Density8k)
}

fn frame(bytes: &[u8]) -> Vec<Event> {
    vec![
        Event::Level(Wire::ChipSelect, false),
        Event::Transfer(bytes.to_vec()),
        Event::Level(Wire::ChipSelect, true),
    ]
}

fn burst(address: u32, data: &[u8]) -> Vec<Event> {
    vec![
        Event::Level(Wire::ChipSelect, false),
        Event::Write(vec![0x02, (address >> 16) as u8, (address >> 8) as u8, address as u8]),
        Event::Write(data.to_vec()),
        Event::Level(Wire::ChipSelect, true),
    ]
}

fn chain(parts: Vec<Vec<Event>>) -> Vec<Event> {
    parts.into_iter().flatten().collect()
}

fn bursts_of(events: &[Event]) -> Vec<(u32, usize)> {
    let mut found = Vec::new();
    for pair in events.windows(2) {
        if let (Event::Write(header), Event::Write(data)) = (&pair[0], &pair[1]) {
            if header.len() == 4 && header[0] == 0x02 {
                let address = ((header[1] as u32) << 16)
                    | ((header[2] as u32) << 8)
                    | (header[3] as u32);
                found.push((address, data.len()));
            }
        }
    }
    found
}

#[test]
fn start_up_wakes_the_device_and_lowers_hold() {
    let bench = bench();
    let device = attach(&bench, small());
    assert!(device.is_ok());
    let expected = chain(vec![
        vec![
            Event::Level(Wire::ChipSelect, true),
            Event::Level(Wire::Hold, true),
            Event::Level(Wire::WriteProtect, true),
        ],
        frame(&[0xab, 0, 0, 0]),
        vec![Event::Level(Wire::Hold, false)],
    ]);
    assert_eq!(bench.borrow().events, expected);
}

#[test]
fn start_up_with_wrong_identity_stops_after_the_identity_frame() {
    let bench = bench();
    bench.borrow_mut().identity = 0x28;
    let protecting = Variant::custom(8192, 16, true, false, true).unwrap();
    let device = attach(&bench, protecting);
    assert!(matches!(device, Err(Error::WrongId)));
    let expected = chain(vec![
        vec![
            Event::Level(Wire::ChipSelect, true),
            Event::Level(Wire::Hold, true),
            Event::Level(Wire::WriteProtect, true),
        ],
        frame(&[0xab, 0, 0, 0]),
    ]);
    assert_eq!(bench.borrow().events, expected);
}

#[test]
fn start_up_of_a_sleeping_variant_returns_to_deep_sleep() {
    let bench = bench();
    let device = attach(&bench, Variant::of(Model::Density512k));
    assert!(device.is_ok());
    let expected = chain(vec![
        vec![
            Event::Level(Wire::ChipSelect, true),
            Event::Level(Wire::Hold, true),
            Event::Level(Wire::WriteProtect, true),
        ],
        frame(&[0xab, 0, 0, 0]),
        frame(&[0xb9]),
        vec![Event::Level(Wire::Hold, false)],
    ]);
    assert_eq!(bench.borrow().events, expected);
}

#[test]
fn start_up_of_a_wide_variant_sends_one_more_dummy_byte() {
    let bench = bench();
    let device = attach(&bench, Variant::of(Model::Density1024k));
    assert!(device.is_ok());
    let expected = chain(vec![
        vec![
            Event::Level(Wire::ChipSelect, true),
            Event::Level(Wire::Hold, true),
            Event::Level(Wire::WriteProtect, true),
        ],
        frame(&[0xab, 0, 0, 0, 0]),
        frame(&[0xb9]),
        vec![Event::Level(Wire::Hold, false)],
    ]);
    assert_eq!(bench.borrow().events, expected);
}

#[test]
fn start_up_locks_the_status_register_where_asked() {
    let bench = bench();
    bench.borrow_mut().statuses = VecDeque::from(vec![0b1000_0100, 0b0000_0100]);
    let protecting = Variant::custom(8192, 16, false, false, true).unwrap();
    let device = attach(&bench, protecting);
    assert!(device.is_ok());
    let expected = chain(vec![
        vec![
            Event::Level(Wire::ChipSelect, true),
            Event::Level(Wire::Hold, true),
            Event::Level(Wire::WriteProtect, true),
        ],
        frame(&[0xab, 0, 0, 0]),
        frame(&[0x06]),
        vec![Event::Level(Wire::WriteProtect, true)],
        frame(&[0x0a, 0]),
        frame(&[0x08, 0b0000_0100]),
        frame(&[0x06]),
        vec![Event::Level(Wire::WriteProtect, true)],
        frame(&[0x0a, 0]),
        frame(&[0x08, 0b1000_0100]),
        vec![Event::Level(Wire::WriteProtect, false), Event::Level(Wire::Hold, false)],
    ]);
    assert_eq!(bench.borrow().events, expected);
}

#[test]
fn start_up_gives_up_at_the_first_failure() {
    let bench = bench();
    bench.borrow_mut().fail_at = Some(1);
    let device = attach(&bench, small());
    assert!(matches!(device, Err(Error::PinError(-1))));
    assert_eq!(
        bench.borrow().events,
        vec![Event::Level(Wire::ChipSelect, true), Event::Level(Wire::Hold, true)]
    );
    let bench = self::bench();
    bench.borrow_mut().fail_at = Some(4);
    let device = attach(&bench, small());
    assert!(matches!(device, Err(Error::SpiError(7))));
    assert_eq!(bench.borrow().events.len(), 5);
}

#[test]
fn identity_is_the_last_byte_of_the_answer() {
    let (bench, mut device) = started(small());
    bench.borrow_mut().identity = 0x5a;
    assert!(matches!(device.release_from_deep_sleep_and_get_manufacturer_id(), Ok(0x5a)));
    assert_eq!(bench.borrow().events, frame(&[0xab, 0, 0, 0]));
    let (bench, mut device) = started(Variant::of(Model::Density1024k));
    bench.borrow_mut().identity = 0x3c;
    assert!(matches!(device.release_from_deep_sleep_and_get_manufacturer_id(), Ok(0x3c)));
    assert_eq!(bench.borrow().events, frame(&[0xab, 0, 0, 0, 0]));
}

#[test]
fn status_is_the_second_byte_of_the_answer() {
    let (bench, mut device) = started(small());
    bench.borrow_mut().statuses = VecDeque::from(vec![0b1000_1110, 0b0000_0001]);
    let status = device.status();
    assert!(matches!(status, Ok(ref s) if s.value == 0b1000_1110));
    assert!(matches!(device.status_read(), Ok(0b0000_0001)));
    assert_eq!(bench.borrow().events, chain(vec![frame(&[0x0a, 0]), frame(&[0x0a, 0])]));
}

#[test]
fn single_byte_instructions_are_framed() {
    let (bench, mut device) = started(small());
    assert!(device.write_enable().is_ok());
    assert!(device.write_disable().is_ok());
    assert!(device.deep_sleep().is_ok());
    assert_eq!(
        bench.borrow().events,
        chain(vec![frame(&[0x06]), frame(&[0x04]), frame(&[0xb9])])
    );
}

#[test]
fn transfer_brackets_the_frame_with_chip_select() {
    let (bench, mut device) = started(small());
    let mut buffer = [0x0a, 0x00];
    bench.borrow_mut().statuses = VecDeque::from(vec![0x42]);
    assert!(device.transfer(&mut buffer).is_ok());
    assert_eq!(buffer[1], 0x42);
    assert_eq!(bench.borrow().events, frame(&[0x0a, 0]));
}

#[test]
fn transfer_reports_the_failing_action() {
    let (bench, mut device) = started(small());
    bench.borrow_mut().fail_at = Some(0);
    let mut buffer = [0x06];
    assert!(matches!(device.transfer(&mut buffer), Err(Error::PinError(-1))));
    assert_eq!(bench.borrow().events, vec![Event::Level(Wire::ChipSelect, false)]);
    let (bench, mut device) = started(small());
    bench.borrow_mut().fail_at = Some(1);
    assert!(matches!(device.transfer(&mut buffer), Err(Error::SpiError(7))));
    assert_eq!(bench.borrow().events.len(), 2);
    let (bench, mut device) = started(small());
    bench.borrow_mut().fail_at = Some(2);
    assert!(matches!(device.transfer(&mut buffer), Err(Error::PinError(-1))));
    assert_eq!(bench.borrow().events, frame(&[0x06]));
}

#[test]
fn hold_follows_the_flag() {
    let (bench, mut device) = started(small());
    assert!(device.hold_transfer(true).is_ok());
    assert!(device.hold_transfer(false).is_ok());
    assert_eq!(
        bench.borrow().events,
        vec![Event::Level(Wire::Hold, true), Event::Level(Wire::Hold, false)]
    );
}

#[test]
fn error_on_writing_refuses_a_busy_device() {
    let (bench, mut device) = started(small());
    bench.borrow_mut().statuses = VecDeque::from(vec![0b0000_0011, 0b0000_0010]);
    assert!(matches!(device.error_on_writing(), Err(Error::BusyWriting)));
    let status = device.error_on_writing();
    assert!(matches!(status, Ok(ref s) if s.value == 0b0000_0010));
    assert_eq!(bench.borrow().events, chain(vec![frame(&[0x0a, 0]), frame(&[0x0a, 0])]));
}

#[test]
fn erase_sends_the_opcode_above_the_address() {
    let (bench, mut device) = started(small());
    assert!(device.erase(0x01_2345, Erase::SectorErase).is_ok());
    assert!(device.erase(0xff00_0040, Erase::PageErase).is_ok());
    assert!(device.erase(0, Erase::ChipErase).is_ok());
    let expected = chain(vec![
        frame(&[0x0a, 0]),
        frame(&[0x06]),
        frame(&[0xd8, 0x01, 0x23, 0x45]),
        frame(&[0x0a, 0]),
        frame(&[0x06]),
        frame(&[0x42, 0x00, 0x00, 0x40]),
        frame(&[0x0a, 0]),
        frame(&[0x06]),
        frame(&[0xc7, 0x00, 0x00, 0x00]),
    ]);
    assert_eq!(bench.borrow().events, expected);
}

#[test]
fn erase_of_a_busy_device_sends_nothing_more() {
    let (bench, mut device) = started(small());
    bench.borrow_mut().statuses = VecDeque::from(vec![0b0000_0001]);
    assert!(matches!(device.erase(0x100, Erase::PageErase), Err(Error::BusyWriting)));
    assert_eq!(bench.borrow().events, frame(&[0x0a, 0]));
}

#[test]
fn unlocking_clears_the_protection_enable_flag() {
    let (bench, mut device) = started(small());
    bench.borrow_mut().statuses = VecDeque::from(vec![0b1000_1100]);
    assert!(device.enable_write_to_status().is_ok());
    let expected = chain(vec![
        vec![Event::Level(Wire::WriteProtect, true)],
        frame(&[0x0a, 0]),
        frame(&[0x08, 0b0000_1100]),
    ]);
    assert_eq!(bench.borrow().events, expected);
}

#[test]
fn locking_sets_the_protection_enable_flag() {
    let (bench, mut device) = started(small());
    bench.borrow_mut().statuses = VecDeque::from(vec![0b0000_1000]);
    assert!(device.disable_write_to_status().is_ok());
    let expected = chain(vec![
        vec![Event::Level(Wire::WriteProtect, true)],
        frame(&[0x0a, 0]),
        frame(&[0x08, 0b1000_1000]),
        vec![Event::Level(Wire::WriteProtect, false)],
    ]);
    assert_eq!(bench.borrow().events, expected);
}

#[test]
fn array_protection_is_written_between_unlock_and_lock() {
    let (bench, mut device) = started(small());
    bench.borrow_mut().statuses = VecDeque::from(vec![0b1000_0100, 0b1000_0100, 0b0000_1000]);
    assert!(device.set_array_write_protection(WriteProtection::Half).is_ok());
    let expected = chain(vec![
        frame(&[0x0a, 0]),
        frame(&[0x06]),
        vec![Event::Level(Wire::WriteProtect, true)],
        frame(&[0x0a, 0]),
        frame(&[0x08, 0b0000_0100]),
        frame(&[0x06]),
        frame(&[0x08, 0b1000_1000]),
        vec![Event::Level(Wire::WriteProtect, true)],
        frame(&[0x0a, 0]),
        frame(&[0x08, 0b1000_1000]),
        vec![Event::Level(Wire::WriteProtect, false)],
    ]);
    assert_eq!(bench.borrow().events, expected);
}

#[test]
fn addressed_read_sends_the_command_then_exchanges_the_buffer() {
    let (bench, mut device) = started(small());
    let mut buffer = [0u8; 3];
    assert!(device.read(0x00_0120, &mut buffer).is_ok());
    assert_eq!(buffer, [0x20, 0x21, 0x22]);
    let expected = vec![
        Event::Level(Wire::ChipSelect, false),
        Event::Write(vec![0x03, 0x00, 0x01, 0x20]),
        Event::Transfer(vec![0, 0, 0]),
        Event::Level(Wire::ChipSelect, true),
    ];
    assert_eq!(bench.borrow().events, expected);
}

#[test]
fn addressed_write_sends_the_command_then_the_data() {
    let (bench, mut device) = started(small());
    assert!(device.write(0x00_0abc, &[1, 2, 3, 4, 5]).is_ok());
    assert_eq!(bench.borrow().events, burst(0x0abc, &[1, 2, 3, 4, 5]));
}

#[test]
fn storage_reports_the_capacity_of_the_variant() {
    let (_bench, device) = started(Variant::of(Model::Density64k));
    let storage = Storage::new(device);
    assert_eq!(storage.capacity(), 64 * 1024);
    assert_eq!(storage.poll_limit, u64::MAX);
}

#[test]
fn storage_write_splits_at_page_boundaries() {
    let (bench, device) = started(small());
    let mut storage = Storage::new(device);
    let data: Vec<u8> = (0..20).collect();
    assert!(storage.write(10, &data).is_ok());
    assert_eq!(bursts_of(&bench.borrow().events), vec![(10, 6), (16, 14)]);
    let expected = chain(vec![
        vec![Event::Level(Wire::Hold, true)],
        frame(&[0x06]),
        burst(10, &data[..6]),
        frame(&[0x0a, 0]),
        frame(&[0x04]),
        frame(&[0x06]),
        burst(16, &data[6..]),
        frame(&[0x0a, 0]),
        frame(&[0x04]),
        vec![Event::Level(Wire::Hold, false)],
    ]);
    assert_eq!(bench.borrow().events, expected);
}

#[test]
fn storage_write_never_crosses_a_page() {
    let page = 16usize;
    for offset in [0u32, 1, 15, 16, 17, 31, 100] {
        for length in [0usize, 1, 15, 16, 17, 32, 33, 70] {
            let (bench, device) = started(small());
            let mut storage = Storage::new(device);
            let data = vec![0x55u8; length];
            assert!(storage.write(offset, &data).is_ok());
            let found = bursts_of(&bench.borrow().events);
            let pages = if length == 0 {
                0
            } else {
                (offset as usize + length - 1) / page - offset as usize / page + 1
            };
            assert_eq!(found.len(), pages);
            let mut next = offset;
            for (address, size) in found {
                assert_eq!(address, next);
                assert!(size >= 1);
                assert_eq!(address as usize / page, (address as usize + size - 1) / page);
                next = address + size as u32;
            }
            assert_eq!(next as usize, offset as usize + length);
        }
    }
}

#[test]
fn storage_write_polls_until_the_device_is_idle() {
    let (bench, device) = started(small());
    let mut storage = Storage::new(device);
    bench.borrow_mut().statuses = VecDeque::from(vec![0b11, 0b11, 0b10]);
    assert!(storage.write(0, &[9, 8, 7]).is_ok());
    let expected = chain(vec![
        vec![Event::Level(Wire::Hold, true)],
        frame(&[0x06]),
        burst(0, &[9, 8, 7]),
        frame(&[0x0a, 0]),
        frame(&[0x0a, 0]),
        frame(&[0x0a, 0]),
        frame(&[0x04]),
        vec![Event::Level(Wire::Hold, false)],
    ]);
    assert_eq!(bench.borrow().events, expected);
}

#[test]
fn storage_write_gives_up_at_the_poll_limit() {
    let (bench, device) = started(small());
    let mut storage = Storage::new(device);
    storage.poll_limit = 2;
    bench.borrow_mut().idle_status = 0b0000_0001;
    assert!(matches!(storage.write(0, &[1]), Err(Error::WriteTimeout)));
    let expected = chain(vec![
        vec![Event::Level(Wire::Hold, true)],
        frame(&[0x06]),
        burst(0, &[1]),
        frame(&[0x0a, 0]),
        frame(&[0x0a, 0]),
    ]);
    assert_eq!(bench.borrow().events, expected);
}

#[test]
fn storage_write_wakes_a_sleeping_variant() {
    let (bench, device) = started(Variant::of(Model::Density1024k));
    let mut storage = Storage::new(device);
    assert!(storage.write(0x0f_fffe, &[1, 2]).is_ok());
    let expected = chain(vec![
        vec![Event::Level(Wire::Hold, true)],
        frame(&[0xab, 0, 0, 0, 0]),
        frame(&[0x06]),
        burst(0x0f_fffe, &[1, 2]),
        frame(&[0x0a, 0]),
        frame(&[0x04]),
        frame(&[0xb9]),
        vec![Event::Level(Wire::Hold, false)],
    ]);
    assert_eq!(bench.borrow().events, expected);
}

#[test]
fn storage_write_beyond_the_end_asks_nothing_of_the_hardware() {
    let (bench, device) = started(small());
    let mut storage = Storage::new(device);
    assert!(matches!(storage.write(8190, &[1, 2, 3]), Err(Error::TooMuchData)));
    assert!(matches!(storage.write(8192, &[1]), Err(Error::TooMuchData)));
    assert!(matches!(storage.write(u32::MAX, &[1]), Err(Error::TooMuchData)));
    assert!(bench.borrow().events.is_empty());
    assert!(storage.write(8190, &[1, 2]).is_ok());
    assert!(storage.write(8192, &[]).is_ok());
}

#[test]
fn storage_read_beyond_the_end_asks_nothing_of_the_hardware() {
    let (bench, device) = started(small());
    let mut storage = Storage::new(device);
    let mut buffer = [0xaau8; 3];
    assert!(matches!(storage.read(8190, &mut buffer), Err(Error::TooMuchData)));
    assert_eq!(buffer, [0xaa, 0xaa, 0xaa]);
    assert!(bench.borrow().events.is_empty());
    assert!(storage.read(8189, &mut buffer).is_ok());
}

#[test]
fn storage_read_is_one_addressed_read() {
    let (bench, device) = started(small());
    let mut storage = Storage::new(device);
    let mut buffer = [0u8; 40];
    assert!(storage.read(0x30, &mut buffer).is_ok());
    for (i, byte) in buffer.iter().enumerate() {
        assert_eq!(*byte as usize, 0x30 + i);
    }
    let expected = vec![
        Event::Level(Wire::Hold, true),
        Event::Level(Wire::ChipSelect, false),
        Event::Write(vec![0x03, 0x00, 0x00, 0x30]),
        Event::Transfer(vec![0u8; 40]),
        Event::Level(Wire::ChipSelect, true),
        Event::Level(Wire::Hold, false),
    ];
    assert_eq!(bench.borrow().events, expected);
}

#[test]
fn storage_read_wakes_a_sleeping_variant() {
    let (bench, device) = started(Variant::of(Model::Density512k));
    let mut storage = Storage::new(device);
    let mut buffer = [0u8; 2];
    assert!(storage.read(0x01_0000, &mut buffer).is_ok());
    let expected = chain(vec![
        vec![Event::Level(Wire::Hold, true)],
        frame(&[0xab, 0, 0, 0]),
        vec![
            Event::Level(Wire::ChipSelect, false),
            Event::Write(vec![0x03, 0x01, 0x00, 0x00]),
            Event::Transfer(vec![0, 0]),
            Event::Level(Wire::ChipSelect, true),
        ],
        frame(&[0xb9]),
        vec![Event::Level(Wire::Hold, false)],
    ]);
    assert_eq!(bench.borrow().events, expected);
}

#[test]
fn storage_write_stops_at_the_first_failure() {
    let (bench, device) = started(small());
    let mut storage = Storage::new(device);
    bench.borrow_mut().fail_at = Some(6);
    assert!(matches!(storage.write(0, &[1, 2, 3]), Err(Error::SpiError(7))));
    assert_eq!(bench.borrow().events.len(), 7);
    let (bench, device) = started(small());
    let mut storage = Storage::new(device);
    bench.borrow_mut().fail_at = Some(0);
    assert!(matches!(storage.write(0, &[1, 2, 3]), Err(Error::PinError(-1))));
    assert_eq!(bench.borrow().events, vec![Event::Level(Wire::Hold, true)]);
}

#[test]
fn write_cycle_is_latch_burst_polls_unlatch() {
    let (bench, device) = started(small());
    let mut storage = Storage::new(device);
    bench.borrow_mut().statuses = VecDeque::from(vec![0b01]);
    assert!(storage.write_page(32, &[5, 6]).is_ok());
    let expected = chain(vec![
        frame(&[0x06]),
        burst(32, &[5, 6]),
        frame(&[0x0a, 0]),
        frame(&[0x0a, 0]),
        frame(&[0x04]),
    ]);
    assert_eq!(bench.borrow().events, expected);
}

#[test]
fn wait_until_idle_counts_its_polls() {
    let (bench, device) = started(small());
    let mut storage = Storage::new(device);
    storage.poll_limit = 3;
    bench.borrow_mut().statuses = VecDeque::from(vec![1, 1, 0]);
    assert!(storage.wait_until_idle().is_ok());
    assert_eq!(bench.borrow().events.len(), 9);
    storage.poll_limit = 0;
    assert!(matches!(storage.wait_until_idle(), Err(Error::WriteTimeout)));
    assert_eq!(bench.borrow().events.len(), 9);
}

#[test]
fn wiring_hands_each_call_to_its_own_hardware() {
    let bench = bench();
    let mut wiring = Wiring::new(
        Bus(bench.clone()),
        Pin(bench.clone(), Wire::ChipSelect),
        Pin(bench.clone(), Wire::WriteProtect),
        Pin(bench.clone(), Wire::Hold),
    );
    assert_eq!(wiring.drive(Line::ChipSelect, false), Ok(()));
    assert_eq!(wiring.drive(Line::WriteProtect, true), Ok(()));
    assert_eq!(wiring.drive(Line::Hold, false), Ok(()));
    assert_eq!(wiring.send(&[1, 2]), Ok(()));
    let mut buffer = [0x0a, 0];
    bench.borrow_mut().statuses = VecDeque::from(vec![0x33]);
    assert_eq!(wiring.exchange(&mut buffer), Ok(()));
    assert_eq!(buffer[1], 0x33);
    bench.borrow_mut().fail_at = Some(5);
    assert_eq!(wiring.drive(Line::Hold, true), Err(-1));
    let expected = vec![
        Event::Level(Wire::ChipSelect, false),
        Event::Level(Wire::WriteProtect, true),
        Event::Level(Wire::Hold, false),
        Event::Write(vec![1, 2]),
        Event::Transfer(vec![0x0a, 0]),
        Event::Level(Wire::Hold, true),
    ];
    assert_eq!(bench.borrow().events, expected);
}
