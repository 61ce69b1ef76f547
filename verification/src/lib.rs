//! Hard-decision LDPC decoding, systematic encoding and the integer side of
//! the min-sum decoder, over packed bit arrays, with their laws.
pub mod bitarray;
pub mod channel;
pub mod correction;
pub mod encoder;
pub mod flip_rules;
pub mod gf2;
pub mod ldpc_decoder;
pub mod matrix_text;
pub mod server_router;
pub mod spa_decoder_llr;
pub mod tanner;
