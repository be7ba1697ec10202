//! AES: what its chiplets share. The S-box table, ShiftRows, MixColumns and
//! RotWord, and the constraints of a round.

pub mod cipher;
pub mod laws;
pub mod rounds;
pub mod sbox_rom;

pub use rounds::{
    aes_byte_labels, build_round_constraints, build_sbox_inversion_constraints, rot_map, shift_map,
};
pub use sbox_rom::{SboxRomChiplet, SboxRomColumns, SboxRound};
