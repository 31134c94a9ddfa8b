//! The alphabet of names: a space and the lower-case letters, folded onto the
//! indices `0..27`.

use vstd::prelude::*;
use vstd::string::*;

verus! {

/// Number of symbols in the alphabet.
pub const ALPHABET_SIZE: usize = 27;

/// Longest name that a position mask can describe.
pub const MAX_NAME_LEN: usize = 16;

/// Whether `code` is the code of a space or of a lower-case letter.
pub open spec fn is_symbol(code: int) -> bool {
    code == 0x20 || 0x61 <= code <= 0x7a
}

/// Index of a symbol: zero for the space, one to twenty-six for `a` to `z`.
pub open spec fn symbol_of(code: int) -> int {
    if code == 0x20 {
        0
    } else {
        code - 0x60
    }
}

/// A name that can be scored: one to sixteen symbols of the alphabet.
pub open spec fn valid_name(name: Seq<char>) -> bool {
    &&& 1 <= name.len() <= 16
    &&& forall|i: int| 0 <= i < name.len() ==> is_symbol(#[trigger] name[i] as int)
}

/// Index of the symbol at position `i` of `name`.
pub open spec fn symbol_at(name: Seq<char>, i: int) -> int {
    symbol_of(name[i] as int)
}

/// Folds the byte of a symbol onto its index: the space takes the place just
/// below `a`.
pub fn symbol_index(byte: u8) -> (index: u8)
    requires
        is_symbol(byte as int),
    ensures
        index == symbol_of(byte as int),
        index < 27,
{
    if byte == 0x20 {
        0
    } else {
        byte - 0x60
    }
}

/// Whether `byte` is the symbol with index `symbol`. A byte outside the
/// alphabet is no symbol.
pub fn holds_symbol(byte: u8, symbol: u8) -> (holds: bool)
    ensures
        holds == (is_symbol(byte as int) && symbol_of(byte as int) == symbol),
{
    if byte == 0x20 {
        symbol == 0
    } else if 0x61 <= byte && byte <= 0x7a {
        byte - 0x60 == symbol
    } else {
        false
    }
}

/// Whether `name` can be scored.
pub fn is_valid_name(name: &String) -> (valid: bool)
    ensures
        valid == valid_name(name@),
{
    let text = name.as_str();
    if !text.is_ascii() {
        assert(!valid_name(name@)) by {
            if valid_name(name@) {
                assert forall|i: int| 0 <= i < name@.len() implies '\0' <= #[trigger] name@[i]
                    <= '\u{7f}' by {
                    assert(is_symbol(name@[i] as int));
                }
            }
        }
        return false;
    }
    proof {
        is_ascii_spec_bytes(text);
        vstd::utf8::is_ascii_chars_nat_bound(text@);
    }
    let bytes = text.as_bytes();
    let len: usize = bytes.len();
    if len == 0 || len > MAX_NAME_LEN {
        return false;
    }
    let mut i: usize = 0;
    while i < len
        invariant
            0 <= i <= len,
            len == bytes@.len(),
            len == name@.len(),
            1 <= len <= 16,
            forall|k: int| 0 <= k < len ==> bytes@[k] as int == #[trigger] name@[k] as int,
            forall|k: int| 0 <= k < i ==> is_symbol(#[trigger] name@[k] as int),
        decreases len - i,
    {
        let byte: u8 = bytes[i];
        if !(byte == 0x20 || (0x61 <= byte && byte <= 0x7a)) {
            assert(!is_symbol(name@[i as int] as int));
            return false;
        }
        i += 1;
    }
    true
}

/// The bytes of a name that can be scored: one for each symbol, its code.
pub fn name_bytes(name: &String) -> (bytes: &[u8])
    requires
        valid_name(name@),
    ensures
        bytes@.len() == name@.len(),
        forall|k: int| 0 <= k < name@.len() ==> bytes@[k] as int == #[trigger] name@[k] as int,
{
    let text = name.as_str();
    proof {
        assert forall|i: int| 0 <= i < text@.len() implies '\0' <= #[trigger] text@[i]
            <= '\u{7f}' by {
            assert(is_symbol(name@[i] as int));
        }
        is_ascii_spec_bytes(text);
        vstd::utf8::is_ascii_chars_nat_bound(text@);
    }
    text.as_bytes()
}

} // verus!
