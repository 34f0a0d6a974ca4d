//! Discrete-event core of a software-radio packet receiver: the
//! fixed-capacity circular buffer shared by every stateful stage, the
//! proportional-integral loop filter driving clock recovery, the syncword
//! correlator and packetizing state machine that frame the recovered bit
//! stream, the self-synchronizing descrambler, and the bit-to-byte packer.
//! Every operation carries a contract pinning its result; the continuous
//! (floating-point) signal path that feeds recovered symbols into these
//! stages lives outside the library.

pub mod bitstream_decoder;
pub mod lsfr;
pub mod pi_filter;
pub mod ringbuffer;
pub mod syncword;
