//! Escaping of text for use as an unquoted HTML attribute value.
//!
//! Every ASCII character other than a letter or a digit is replaced by a
//! character reference: `&amp;`, `&lt;`, `&gt;` and `&quot;` for the four
//! reserved characters, `&#xHH;` for the rest. Characters outside ASCII pass
//! through unchanged. The scan works on the UTF-8 bytes of the text and never
//! decodes them.
pub mod classify;
pub mod entity;
pub mod model;
pub mod encoding;
pub mod laws;
pub mod scanner;
pub mod stream;
pub mod strings;
pub mod unquoted_attribute;

pub use classify::{get_width_assume_valid, is_alphanumeric};
pub use entity::{Reference, write_hex_to_vec, write_html_entity_to_string, write_html_entity_to_vec};
pub use scanner::{Chunk, Scanner};
pub use stream::{SinkAction, SinkEscaper};
pub use unquoted_attribute::{encode_unquoted_attribute, encode_unquoted_attribute_to_string, encode_unquoted_attribute_to_vec};
