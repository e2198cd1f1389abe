use lib::default_irq_handler::{default_irq_handler, init_default_irq, IrqUpdate};
use lib::swi::{sub_0800, swi_dispatch, swi_intr_wait, swi_vblank_intr_wait, FlagCheck, SwiService};

#[test]
fn dispatch_known_numbers() {
    assert_eq!(swi_dispatch(0x00), Some(SwiService::SoftReset));
    assert_eq!(swi_dispatch(0x01), Some(SwiService::RegisterRamReset));
    assert_eq!(swi_dispatch(0x03), Some(SwiService::WaitByLoop));
    assert_eq!(swi_dispatch(0x04), Some(SwiService::IntrWait));
    assert_eq!(swi_dispatch(0x05), Some(SwiService::VBlankIntrWait));
    assert_eq!(swi_dispatch(0x06), Some(SwiService::Halt));
    assert_eq!(swi_dispatch(0x07), Some(SwiService::Stop));
    assert_eq!(swi_dispatch(0x09), Some(SwiService::Div));
    assert_eq!(swi_dispatch(0x0A), Some(SwiService::DivArm));
    assert_eq!(swi_dispatch(0x0B), Some(SwiService::CpuSet));
    assert_eq!(swi_dispatch(0x0C), Some(SwiService::CpuFastSet));
    assert_eq!(swi_dispatch(0x0D), Some(SwiService::Sqrt));
    assert_eq!(swi_dispatch(0x0E), Some(SwiService::GetCrc16));
    assert_eq!(swi_dispatch(0x0F), Some(SwiService::IsDebugger));
    assert_eq!(swi_dispatch(0x11), Some(SwiService::Lz77UnCompWram));
}

#[test]
fn dispatch_unknown_numbers() {
    for n in [0x02u32, 0x08, 0x10, 0x12, 0x1F, 0xFF, 0x100, u32::MAX] {
        assert_eq!(swi_dispatch(n), None);
    }
}

#[test]
fn check_finds_and_clears_requested_flags() {
    assert_eq!(sub_0800(0b0101, 0b0110), FlagCheck { matched: 0b0100, flags: 0b0010 });
    assert_eq!(sub_0800(0b0001, 0b0110), FlagCheck { matched: 0, flags: 0b0110 });
    assert_eq!(sub_0800(0xFFFF_FFFF, 0x1234), FlagCheck { matched: 0x1234, flags: 0 });
    assert_eq!(sub_0800(0, 0x1234), FlagCheck { matched: 0, flags: 0x1234 });
}

#[test]
fn intr_wait_discards_old_flags_on_request() {
    assert_eq!(swi_intr_wait(1, 0b0011, 0b0110), 0b0100);
    assert_eq!(swi_intr_wait(0, 0b0011, 0b0110), 0b0110);
    assert_eq!(swi_vblank_intr_wait(0b0111), 0b0110);
    assert_eq!(swi_vblank_intr_wait(0b0110), 0b0110);
}

#[test]
fn irq_wakes_the_waiter() {
    // the wait starts, an interrupt comes in, and the next check ends the wait
    let mask = 0b1000;
    let flags = swi_intr_wait(1, mask, 0b1001);
    assert_eq!(flags, 0b0001);
    let none = sub_0800(mask, flags);
    assert_eq!(none.matched, 0);
    let update = default_irq_handler(0b1010, none.flags);
    assert_eq!(update, IrqUpdate { check_bits: 0b1011, acknowledge: 0b1010 });
    let found = sub_0800(mask, update.check_bits);
    assert_eq!(found, FlagCheck { matched: 0b1000, flags: 0b0011 });
}

#[test]
fn default_handler_is_installed_only_in_an_empty_slot() {
    assert_eq!(init_default_irq(0, 0xFFFF_0300), 0xFFFF_0300);
    assert_eq!(init_default_irq(0x0200_1000, 0xFFFF_0300), 0x0200_1000);
}
