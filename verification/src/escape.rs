//! Escaping of literal text for HTML text nodes, and its inverse.

use vstd::prelude::*;
use vstd::string::*;
use vstd::utf8::*;

verus! {

/// The line feed byte, which ends a source line.
pub const NEWLINE: u8 = 10;

/// The byte `"`.
pub const QUOTE: u8 = 34;

/// The byte `&`.
pub const AMPERSAND: u8 = 38;

/// The byte `<`.
pub const LESS_THAN: u8 = 60;

/// The byte `>`.
pub const GREATER_THAN: u8 = 62;

/// What one literal byte becomes in the output: an entity for `&`, `<`, `>`
/// and `"`, the byte itself for every other value.
pub open spec fn escape_byte(byte: u8) -> Seq<u8> {
    if byte == AMPERSAND {
        "&amp;".spec_bytes()
    } else if byte == LESS_THAN {
        "&lt;".spec_bytes()
    } else if byte == GREATER_THAN {
        "&gt;".spec_bytes()
    } else if byte == QUOTE {
        "&quot;".spec_bytes()
    } else {
        seq![byte]
    }
}

/// The escaped form of a run of literal bytes.
pub open spec fn escape_text(text: Seq<u8>) -> Seq<u8>
    decreases text.len(),
{
    if text.len() == 0 {
        Seq::empty()
    } else {
        escape_byte(text[0]) + escape_text(text.drop_first())
    }
}

/// Whether `bytes` begins with `prefix`.
pub open spec fn starts_with(bytes: Seq<u8>, prefix: Seq<u8>) -> bool {
    prefix.len() <= bytes.len() && bytes.subrange(0, prefix.len() as int) == prefix
}

/// The text that escaped bytes stand for: each of the four entities read back
/// as its byte, every other byte kept.
pub open spec fn decode_entities(bytes: Seq<u8>) -> Seq<u8>
    decreases bytes.len(),
{
    if bytes.len() == 0 {
        Seq::empty()
    } else if bytes.len() >= 5 && starts_with(bytes, "&amp;".spec_bytes()) {
        seq![AMPERSAND] + decode_entities(bytes.skip(5))
    } else if bytes.len() >= 4 && starts_with(bytes, "&lt;".spec_bytes()) {
        seq![LESS_THAN] + decode_entities(bytes.skip(4))
    } else if bytes.len() >= 4 && starts_with(bytes, "&gt;".spec_bytes()) {
        seq![GREATER_THAN] + decode_entities(bytes.skip(4))
    } else if bytes.len() >= 6 && starts_with(bytes, "&quot;".spec_bytes()) {
        seq![QUOTE] + decode_entities(bytes.skip(6))
    } else {
        seq![bytes[0]] + decode_entities(bytes.skip(1))
    }
}

/// The four entities, byte by byte.
pub proof fn lemma_entity_bytes()
    ensures
        "&amp;".spec_bytes() == seq![38u8, 97, 109, 112, 59],
        "&lt;".spec_bytes() == seq![38u8, 108, 116, 59],
        "&gt;".spec_bytes() == seq![38u8, 103, 116, 59],
        "&quot;".spec_bytes() == seq![38u8, 113, 117, 111, 116, 59],
{
    reveal_strlit("&amp;");
    reveal_strlit("&lt;");
    reveal_strlit("&gt;");
    reveal_strlit("&quot;");
    is_ascii_chars_encode_utf8("&amp;"@);
    is_ascii_chars_encode_utf8("&lt;"@);
    is_ascii_chars_encode_utf8("&gt;"@);
    is_ascii_chars_encode_utf8("&quot;"@);
    assert("&amp;".spec_bytes() =~= seq![38u8, 97, 109, 112, 59]);
    assert("&lt;".spec_bytes() =~= seq![38u8, 108, 116, 59]);
    assert("&gt;".spec_bytes() =~= seq![38u8, 103, 116, 59]);
    assert("&quot;".spec_bytes() =~= seq![38u8, 113, 117, 111, 116, 59]);
}

/// Decoding undoes the escaping of one byte in front of any escaped rest.
proof fn lemma_decode_after_escape_byte(byte: u8, rest: Seq<u8>)
    ensures
        decode_entities(escape_byte(byte) + rest) == seq![byte] + decode_entities(rest),
{
    lemma_entity_bytes();
    let whole = escape_byte(byte) + rest;
    let width = escape_byte(byte).len() as int;
    assert(whole.skip(width) =~= rest);
    assert(whole.subrange(0, width) =~= escape_byte(byte));
    assert(whole[0] == escape_byte(byte)[0]);
    if byte == AMPERSAND {
        assert(starts_with(whole, "&amp;".spec_bytes()));
    } else if byte == LESS_THAN {
        assert(whole[1] == 108);
        assert(!starts_with(whole, "&amp;".spec_bytes())) by {
            if starts_with(whole, "&amp;".spec_bytes()) {
                assert(whole.subrange(0, 5)[1] == 97);
            }
        }
        assert(starts_with(whole, "&lt;".spec_bytes()));
    } else if byte == GREATER_THAN {
        assert(whole[1] == 103);
        assert(!starts_with(whole, "&amp;".spec_bytes())) by {
            if starts_with(whole, "&amp;".spec_bytes()) {
                assert(whole.subrange(0, 5)[1] == 97);
            }
        }
        assert(!starts_with(whole, "&lt;".spec_bytes())) by {
            if starts_with(whole, "&lt;".spec_bytes()) {
                assert(whole.subrange(0, 4)[1] == 108);
            }
        }
        assert(starts_with(whole, "&gt;".spec_bytes()));
    } else if byte == QUOTE {
        assert(whole[1] == 113);
        assert(!starts_with(whole, "&amp;".spec_bytes())) by {
            if starts_with(whole, "&amp;".spec_bytes()) {
                assert(whole.subrange(0, 5)[1] == 97);
            }
        }
        assert(!starts_with(whole, "&lt;".spec_bytes())) by {
            if starts_with(whole, "&lt;".spec_bytes()) {
                assert(whole.subrange(0, 4)[1] == 108);
            }
        }
        assert(!starts_with(whole, "&gt;".spec_bytes())) by {
            if starts_with(whole, "&gt;".spec_bytes()) {
                assert(whole.subrange(0, 4)[1] == 103);
            }
        }
        assert(starts_with(whole, "&quot;".spec_bytes()));
    } else {
        assert(whole[0] == byte);
        assert(!starts_with(whole, "&amp;".spec_bytes())) by {
            if starts_with(whole, "&amp;".spec_bytes()) {
                assert(whole.subrange(0, 5)[0] == 38);
            }
        }
        assert(!starts_with(whole, "&lt;".spec_bytes())) by {
            if starts_with(whole, "&lt;".spec_bytes()) {
                assert(whole.subrange(0, 4)[0] == 38);
            }
        }
        assert(!starts_with(whole, "&gt;".spec_bytes())) by {
            if starts_with(whole, "&gt;".spec_bytes()) {
                assert(whole.subrange(0, 4)[0] == 38);
            }
        }
        assert(!starts_with(whole, "&quot;".spec_bytes())) by {
            if starts_with(whole, "&quot;".spec_bytes()) {
                assert(whole.subrange(0, 6)[0] == 38);
            }
        }
    }
}

/// Escaping followed by decoding gives back the text, whatever bytes it holds.
pub proof fn lemma_escape_round_trip(text: Seq<u8>)
    ensures
        decode_entities(escape_text(text)) == text,
    decreases text.len(),
{
    if text.len() == 0 {
        assert(decode_entities(escape_text(text)) =~= text);
    } else {
        lemma_escape_round_trip(text.drop_first());
        lemma_decode_after_escape_byte(text[0], escape_text(text.drop_first()));
        assert(seq![text[0]] + text.drop_first() =~= text);
    }
}

/// Appends the escaped form of `byte` to `out`.
pub fn push_escaped(out: &mut Vec<u8>, byte: u8)
    ensures
        final(out)@ == old(out)@ + escape_byte(byte),
{
    if byte == AMPERSAND {
        out.extend_from_slice("&amp;".as_bytes());
    } else if byte == LESS_THAN {
        out.extend_from_slice("&lt;".as_bytes());
    } else if byte == GREATER_THAN {
        out.extend_from_slice("&gt;".as_bytes());
    } else if byte == QUOTE {
        out.extend_from_slice("&quot;".as_bytes());
    } else {
        out.push(byte);
        assert(out@ =~= old(out)@ + seq![byte]);
    }
}

} // verus!
