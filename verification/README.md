# ARM9 BIOS services, verified

The computing part of a Nintendo DS ARM9 BIOS, written in Verus with its behaviour
proved against mathematical specifications.

- `src/math.rs`: SWI 0x0D square root and SWI 0x09 signed division.
- `src/crc.rs`: SWI 0x0E CRC-16.
- `src/decompress.rs`: SWI 0x16/0x18 delta unfilters and SWI 0x14 run-length decoding.
- `src/memory.rs`: SWI 0x0B CpuSet and SWI 0x0C CpuFastSet over a byte model of memory.
- `src/misc.rs`: SWI 0x03 WaitByLoop and SWI 0x0F IsDebugger.
- `src/swi.rs`: the SWI dispatch table and the interrupt-wait flag checks.
- `src/default_irq_handler.rs`, `src/vectors.rs`: the decisions of the IRQ and SWI
  handlers, the DTCM layout, stack set-up and the vector table.
- `src/data.rs`: the data tables.
- `app/`: the machine interface (raw addresses, volatile registers) around the library.
