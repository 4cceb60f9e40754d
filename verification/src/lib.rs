//! Audio codecs up to their samples: what an encoder writes and what a decoder
//! reads, bit for bit, with proofs.
//!
//! - Opus: [`opus_range`] is the range encoder, modelled in [`range_model`];
//!   [`opus_laplace`] and [`opus_pvq`] code energies and pulse vectors with it.
//!   [`opus_celt`] writes a CELT frame, with the bits shared out by
//!   [`celt_alloc`] and spent by [`celt_pulses`] and [`celt_budget`].
//!   [`opus_encoder`] makes a stream of such frames.
//! - Vorbis: [`vorbis`] writes headers, audio packets and the stream.
//! - AAC-LC: [`aac_decoder`] reads ADTS frames up to their quantised spectra,
//!   on the bits of [`aac_bits`].
//! - Ogg: [`ogg`] writes pages, [`ogg_reader`] reads them.
//!
//! The modules whose names end in `_laws` hold what is proved of several
//! functions together; above all, that a decoder reads back what was written
//! ([`range_laws`], [`celt_laws`], [`ogg_laws`], [`vorbis_laws`],
//! [`opus_stream_laws`]), what a reader makes of pages that others wrote
//! ([`ogg_reader_laws`]) and in what order pages stand ([`ogg_page_laws`]), what the
//! numbers of an AAC frame stand for ([`aac_laws`]), and that a frame keeps to its
//! size if its pulse vectors do ([`celt_alloc_laws`], [`celt_fit_laws`]). The decoder
//! of a CELT frame is written out in [`celt_decoder`] and [`celt_decoder_shares`];
//! [`celt_decoder_laws`] and [`celt_shares_laws`] prove that it finds in a packet the
//! energies and pulse vectors that the encoder was given. Samples and spectra are
//! floating point and stay with the caller.
pub mod aac_bits;
pub mod aac_decoder;
pub mod aac_laws;
pub mod bits;
pub mod celt_alloc;
pub mod celt_alloc_laws;
pub mod celt_budget;
pub mod celt_decoder;
pub mod celt_decoder_laws;
pub mod celt_decoder_shares;
pub mod celt_fit_laws;
pub mod celt_laws;
pub mod celt_pulses;
pub mod celt_shares_laws;
pub mod int_math;
pub mod ogg;
pub mod ogg_laws;
pub mod ogg_page_laws;
pub mod ogg_reader;
pub mod ogg_reader_laws;
pub mod opus_celt;
pub mod opus_celt_tables;
pub mod opus_encoder;
pub mod opus_laplace;
pub mod opus_laplace_laws;
pub mod opus_pvq;
pub mod opus_range;
pub mod opus_stream_laws;
pub mod radix;
pub mod range_laws;
pub mod range_model;
pub mod vorbis;
pub mod vorbis_laws;
