# sent-driver

Verified logic of a driver for the SENT protocol (SAE J2716).

- `src/lib.rs`: the channel type `Sent` and the checksum of a transmitted frame.
- `src/transmitter.rs`: the line actions (pull low, release, wait) that send a
  frame, and the test of whether a frame fits the channel's timing.
- `src/receiver.rs`: reception of a frame from its captures: synchronisation,
  decoding and CRC check, giving the status and data nibbles.
- `src/sent.rs`: decoding of captured frames: elapsed time between timer
  captures, search of the synchronisation pulse, conversion of pulse lengths
  into nibbles, and the 4-bit CRC check.
- `app/`: the hardware side, which performs the line actions through
  `embedded-hal` and sets up timer capture and DMA through `stm32f1xx-hal`.
