use lib::data::{pitch_table, sine_table};
use lib::vectors::{
    dtcm_top, exception_vectors, init_stacks, irq_check_bits_slot, irq_handler, swi_handler, Exception,
    StackSetup, SwiEntry,
};

#[test]
fn dtcm_layout() {
    // DTCM at 0x00800000, 16 KiB (size field 5 in bits 1-5)
    let region = 0x0080_000A;
    assert_eq!(dtcm_top(region), 0x0080_4000);
    assert_eq!(irq_handler(region), 0x0080_3FFC);
    assert_eq!(irq_check_bits_slot(region), 0x0080_3FF8);
    assert_eq!(dtcm_top(0x027C_0000), 0x027C_4000);
    assert_eq!(dtcm_top(0xFFFF_F00A), 0x0000_3000);
}

#[test]
fn init_stacks_clears_the_interrupt_area() {
    let mut dtcm = vec![0xDEAD_BEEFu32; 200];
    let modes = init_stacks(&mut dtcm);
    assert!(dtcm[..72].iter().all(|&w| w == 0xDEAD_BEEF));
    assert!(dtcm[72..].iter().all(|&w| w == 0));
    assert_eq!(
        modes,
        vec![
            StackSetup { cpsr: 0xd3, sp: 0x0080_3FC0 },
            StackSetup { cpsr: 0xd2, sp: 0x0080_3FA0 },
            StackSetup { cpsr: 0x5f, sp: 0x0080_3EC0 },
        ]
    );
}

#[test]
fn swi_entry_decodes_number_and_mode() {
    assert_eq!(swi_handler(0xDF0D, 0x0000_0010), SwiEntry { number: 0x0D, cpsr: 0x1F });
    assert_eq!(swi_handler(0xDF09, 0x6000_0093), SwiEntry { number: 0x09, cpsr: 0x9F });
    assert_eq!(swi_handler(0x00FF, 0xFFFF_FFFF), SwiEntry { number: 0xFF, cpsr: 0x9F });
}

#[test]
fn vector_table() {
    assert_eq!(exception_vectors(0x00), Some(Exception::Reset));
    assert_eq!(exception_vectors(0x04), Some(Exception::Undefined));
    assert_eq!(exception_vectors(0x08), Some(Exception::Swi));
    assert_eq!(exception_vectors(0x0C), Some(Exception::PrefetchAbort));
    assert_eq!(exception_vectors(0x10), Some(Exception::DataAbort));
    assert_eq!(exception_vectors(0x14), Some(Exception::Reserved));
    assert_eq!(exception_vectors(0x18), Some(Exception::Irq));
    assert_eq!(exception_vectors(0x1C), Some(Exception::Fiq));
    assert_eq!(exception_vectors(0x20), None);
    assert_eq!(exception_vectors(0x02), None);
}

#[test]
fn data_tables() {
    let sine = sine_table();
    assert_eq!(sine.len(), 1024);
    assert_eq!(sine[0], 0);
    assert_eq!(sine[3], 30);
    assert_eq!(sine[1023], 10230);
    let pitch = pitch_table();
    assert_eq!(pitch.len(), 768);
    assert!(pitch.iter().all(|&p| p == 0));
}
