//! Fixed-width bit vectors with accurate two's-complement arithmetic,
//! overflow detection, bit and range addressing, rotation, and binary and
//! hexadecimal rendering.
mod arith;
mod bits;
mod laws;
mod model;
mod parse;
mod render;

pub use bits::Bits;
pub use bits::BitsError;
pub use bits::bit;
pub use laws::lemma_bin_string_round_trip;
pub use laws::lemma_rotate_identity;
pub use laws::lemma_rotate_right_then_left;
pub use laws::lemma_signed_add_max_overflows;
pub use laws::lemma_signed_round_trip;
pub use laws::lemma_unsigned_add_all_ones_overflows;
pub use laws::lemma_unsigned_round_trip;
pub use model::bits_of;
pub use model::cap32;
pub use model::low_bits;
pub use model::nth_bit;
pub use model::rot_l;
pub use model::rot_r;
pub use model::s_val;
pub use model::scalar_s;
pub use model::scalar_u;
pub use model::twos_bits;
pub use model::u_val;
pub use model::wrap_i32;
pub use parse::is_bin_char;
pub use parse::parse_ok;
pub use parse::parsed_bits;
pub use parse::strip_spaces;
pub use render::bin_chars;
pub use render::bit_char;
pub use render::dec_chars;
pub use render::digit_char;
pub use render::display_chars;
pub use render::grouped;
pub use render::hex_chars_min;
pub use render::hex_chars_pad;
pub use render::hex_digits;
pub use render::signed_dec_chars;
pub use render::signed_hex_chars;
