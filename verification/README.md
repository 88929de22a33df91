smpte2022-1-fec
===============

Implementation of the core state-machine for _SMPTE 2022-1_ Forward Error Correction (previously
_Pro-MPEG Code of Practice #3_), verified with [Verus](https://github.com/verus-lang/verus).

This crate does not make any assumptions about the application's IO model.  It does not provide any
integration with one either, so you will need to provide your own UDP packet processing logic.

Packets are added to a `Decoder` by `add_main_packets`, `add_column_packets` and `add_row_packets`.
Media packets are passed on to the application's `Receiver` in the call that adds them, in the order
in which they arrive, and packets that could be recovered follow as soon as they are; the decoder
keeps copies for error correction.

These methods must not be given input that the decoder has no way of dealing with, such as a FEC stream
without FEC headers; `try_add_main_packets`, `try_add_column_packets` and `try_add_row_packets` take
any input, and say what they refuse.

Layout
------

| Module            | Contents                                                                   |
|-------------------|----------------------------------------------------------------------------|
| `packet`          | the traits for packets, buffer pools and receivers                         |
| `heap_pool`       | a buffer pool on the heap                                                  |
| `permit`          | permits to use a packet of a pool                                          |
| `sequence`        | arithmetic on RTP sequence numbers                                         |
| `rtp`             | RTP packet headers                                                         |
| `fec`             | FEC packet headers                                                         |
| `geometry`        | the dimensions of the FEC matrix                                           |
| `window`          | what a rolling window of packets holds, and laws about it                  |
| `packet_sequence` | the rolling window                                                         |
| `parity`          | combining packets by exclusive-or                                          |
| `recovery`        | rebuilding a lost packet, and laws about what is restored                  |
| `correction`      | what the matrix holds, how corrections come about, and laws about them     |
| `matrix`          | the matrix of media packets and FEC packets                                |
| `backlog`         | recovered packets that are waiting to be inserted                          |
| `decoding`        | what the decoder holds, how it changes, and laws about it                  |
| `delivery`        | what reaches the receiver, and when                                        |
| `repair`          | what becomes of a lost packet                                              |
| `progress`        | why recoveries come to an end                                              |
| `uniform`         | streams none of whose packets is refused                                   |
| `decoder`         | the decoder                                                                |
| `error`           | the errors that the decoder reports                                        |
