//! Names out of bytes.

use crate::cursor::ByteCursor;
use crate::error::DNSError;
use crate::name::{
    after_labels, counted, decoded_as, join_labels, lemma_dot_valid_utf8, lemma_join_labels_push,
    lemma_parse_pointer_valid_utf8, parse_name, parse_name_simple, parse_pointer, DOT,
};
use crate::text::string_from_utf8;
use crate::wire::put_bytes;
use vstd::prelude::*;
use vstd::utf8::*;

verus! {

/// Appends one more part to a name whose parts so far are joined in `name`.
fn push_part(name: &mut Vec<u8>, part: &[u8], Ghost(parts): Ghost<Seq<Seq<u8>>>)
    requires
        old(name)@ == join_labels(parts),
        (parts.len() == 0) == (old(name)@.len() == 0),
        valid_utf8(old(name)@),
        valid_utf8(part@),
    ensures
        final(name)@ == join_labels(parts.push(part@)),
        part@.len() > 0 ==> final(name)@.len() > 0,
        valid_utf8(final(name)@),
{
    proof {
        lemma_join_labels_push(parts, part@);
        lemma_dot_valid_utf8();
    }
    if name.len() > 0 {
        name.push(DOT);
        proof {
            valid_utf8_concat(old(name)@, seq![DOT]);
            assert(name@ =~= old(name)@ + seq![DOT]);
        }
    }
    let ghost before = name@;
    put_bytes(name, part);
    proof {
        valid_utf8_concat(before, part@);
    }
}

/// Reads a name without compression: length-prefixed labels up to a zero
/// length byte. Gives the labels joined by dots and the count of bytes read,
/// and leaves the reader behind the name.
///
/// Fails with `IOError` where the buffer ends within the name, and with
/// `InvalidUTF8` at the first label that is not valid UTF-8. After a failure
/// the reader's offset is not specified.
pub fn dns_name_simple(reader: &mut ByteCursor<'_>) -> (r: Result<(String, usize), DNSError>)
    ensures
        final(reader).bytes() == old(reader).bytes(),
        decoded_as(
            parse_name_simple(old(reader).bytes(), old(reader).offset()),
            r,
            final(reader).offset(),
        ),
{
    let ghost data = reader.bytes();
    let ghost start = reader.offset();
    let ghost mut parts: Seq<Seq<u8>> = Seq::empty();
    let mut name: Vec<u8> = Vec::new();
    let mut total: usize = 0;
    proof {
        assert(Seq::<Seq<u8>>::empty() + parse_name_simple(data, start)->Ok_0.parts
            =~= parse_name_simple(data, start)->Ok_0.parts);
    }
    loop
        invariant
            reader.bytes() == data,
            data == old(reader).bytes(),
            start == old(reader).offset(),
            parse_name_simple(data, start) == after_labels(
                parts,
                total as int,
                parse_name_simple(data, reader.offset()),
            ),
            name@ == join_labels(parts),
            (parts.len() == 0) == (name@.len() == 0),
            valid_utf8(name@),
            total == reader.offset() - start,
        decreases data.len() - reader.offset(),
    {
        proof {
            reader.lemma_in_range();
            old(reader).lemma_in_range();
        }
        let length = reader.read_u8()?;
        if length == 0 {
            proof {
                assert(parts + Seq::<Seq<u8>>::empty() =~= parts);
            }
            let text = string_from_utf8(name).unwrap();
            return Ok((text, total + 1));
        }
        let label = reader.read_exact(length as usize)?;
        let ghost rest = parse_name_simple(data, reader.offset());
        let text = match string_from_utf8(label) {
            Some(text) => text,
            None => { return Err(DNSError::InvalidUTF8); },
        };
        proof {
            decode_utf8_encode_utf8(label@);
            if rest is Ok {
                assert(parts + (seq![label@] + rest->Ok_0.parts) =~= parts.push(label@)
                    + rest->Ok_0.parts);
            }
        }
        push_part(&mut name, text.as_str().as_bytes(), Ghost(parts));
        proof {
            parts = parts.push(label@);
        }
        total = total + 1 + length as usize;
    }
}

/// The number of pointers that decoding follows one behind the other in a
/// message of `len` bytes. Every jump that leads to a further pointer lands
/// within the message, so a longer chain has been at one place twice and
/// would never end: the bound turns a walk without end into an error and
/// changes nothing else, as the module `compression` proves.
pub open spec fn jump_budget(len: nat) -> nat {
    len
}

/// Reads a name in which a length byte with both high bits set starts a
/// compression pointer, following at most `jumps` pointers one behind the
/// other. Gives the name and the count of bytes read, and leaves the reader
/// behind the name where it stands in the message: behind the zero length
/// byte, or behind the pointer that ended it.
///
/// Fails with `IOError` where the buffer ends within the name, with
/// `InvalidUTF8` at a label that is not valid UTF-8, with `CompressionLoop`
/// at a pointer when no jump is left, and with `IntTooLarge` where the count
/// does not fit. After a failure the reader's offset is not specified.
pub fn dns_name_within(reader: &mut ByteCursor<'_>, jumps: usize) -> (r: Result<
    (String, usize),
    DNSError,
>)
    ensures
        final(reader).bytes() == old(reader).bytes(),
        decoded_as(
            counted(parse_name(old(reader).bytes(), old(reader).offset(), jumps as nat)),
            r,
            final(reader).offset(),
        ),
    decreases jumps, 1int,
{
    let ghost data = reader.bytes();
    let ghost start = reader.offset();
    let ghost mut parts: Seq<Seq<u8>> = Seq::empty();
    let mut name: Vec<u8> = Vec::new();
    let mut total: usize = 0;
    proof {
        assert(Seq::<Seq<u8>>::empty() + parse_name(data, start, jumps as nat)->Ok_0.parts
            =~= parse_name(data, start, jumps as nat)->Ok_0.parts);
    }
    loop
        invariant
            reader.bytes() == data,
            data == old(reader).bytes(),
            start == old(reader).offset(),
            parse_name(data, start, jumps as nat) == after_labels(
                parts,
                total as int,
                parse_name(data, reader.offset(), jumps as nat),
            ),
            name@ == join_labels(parts),
            (parts.len() == 0) == (name@.len() == 0),
            valid_utf8(name@),
            total == reader.offset() - start,
        decreases data.len() - reader.offset(),
    {
        proof {
            reader.lemma_in_range();
            old(reader).lemma_in_range();
        }
        let length = reader.read_u8()?;
        if length == 0 {
            proof {
                assert(parts + Seq::<Seq<u8>>::empty() =~= parts);
            }
            let text = string_from_utf8(name).unwrap();
            return Ok((text, total + 1));
        }
        if length & 0xC0 == 0xC0 {
            let ghost behind = parse_pointer(data, reader.offset(), length & 0x3F, jumps as nat);
            let ghost at = reader.offset();
            let (target_name, read) = dns_name_compressed_within(reader, length & 0x3F, jumps)?;
            proof {
                let part = join_labels(behind->Ok_0.parts);
                assert(part == behind->Ok_0.parts[0]);
                assert(parts + (Seq::<Seq<u8>>::empty() + behind->Ok_0.parts) =~= parts.push(part));
                lemma_parse_pointer_valid_utf8(data, at, length & 0x3F, jumps as nat);
                decode_utf8_encode_utf8(part);
            }
            let total = match (total + 1).checked_add(read) {
                Some(total) => total,
                None => { return Err(DNSError::IntTooLarge); },
            };
            push_part(&mut name, target_name.as_str().as_bytes(), Ghost(parts));
            let text = string_from_utf8(name).unwrap();
            return Ok((text, total));
        }
        let label = reader.read_exact(length as usize)?;
        let ghost rest = parse_name(data, reader.offset(), jumps as nat);
        let text = match string_from_utf8(label) {
            Some(text) => text,
            None => { return Err(DNSError::InvalidUTF8); },
        };
        proof {
            decode_utf8_encode_utf8(label@);
            if rest is Ok {
                assert(parts + (seq![label@] + rest->Ok_0.parts) =~= parts.push(label@)
                    + rest->Ok_0.parts);
            }
        }
        push_part(&mut name, text.as_str().as_bytes(), Ghost(parts));
        proof {
            parts = parts.push(label@);
        }
        total = total + 1 + length as usize;
    }
}

/// Reads the second byte of a compression pointer whose first byte gave
/// `top_half`, reads the name at the offset that the two name, following at
/// most `jumps` pointers with this one, and comes back behind the pointer.
/// Gives that name and the count of bytes that reading it took.
///
/// Fails as `dns_name_within` does, and with `CompressionLoop` where `jumps`
/// is zero.
pub fn dns_name_compressed_within(reader: &mut ByteCursor<'_>, top_half: u8, jumps: usize) -> (r:
    Result<(String, usize), DNSError>)
    ensures
        final(reader).bytes() == old(reader).bytes(),
        decoded_as(
            counted(parse_pointer(old(reader).bytes(), old(reader).offset(), top_half, jumps as nat)),
            r,
            final(reader).offset(),
        ),
    decreases jumps, 0int,
{
    proof {
        old(reader).lemma_in_range();
    }
    let bottom_half = reader.read_u8()?;
    if jumps == 0 {
        return Err(DNSError::CompressionLoop);
    }
    let pointer: u16 = ((top_half as u16) << 8) | (bottom_half as u16);
    let current_position = reader.position();
    reader.seek(pointer as usize);
    let (name, read) = dns_name_within(reader, jumps - 1)?;
    reader.seek(current_position);
    proof {
        let run = parse_name(old(reader).bytes(), pointer as int, (jumps - 1) as nat)->Ok_0;
        assert(join_labels(seq![join_labels(run.parts)]) == join_labels(run.parts));
    }
    Ok((name, read))
}

/// Reads a name in which a length byte with both high bits set starts a
/// compression pointer. Pointers are followed as far as the jump budget of
/// the message allows. See `dns_name_within`.
pub fn dns_name(reader: &mut ByteCursor<'_>) -> (r: Result<(String, usize), DNSError>)
    ensures
        final(reader).bytes() == old(reader).bytes(),
        decoded_as(
            counted(
                parse_name(
                    old(reader).bytes(),
                    old(reader).offset(),
                    jump_budget(old(reader).bytes().len()),
                ),
            ),
            r,
            final(reader).offset(),
        ),
{
    let jumps = reader.len();
    dns_name_within(reader, jumps)
}

/// Reads the second byte of a compression pointer whose first byte gave
/// `top_half`, and the name that the pointer leads to. Pointers are followed
/// as far as the jump budget of the message allows. See
/// `dns_name_compressed_within`.
pub fn dns_name_compressed(reader: &mut ByteCursor<'_>, top_half: u8) -> (r: Result<
    (String, usize),
    DNSError,
>)
    ensures
        final(reader).bytes() == old(reader).bytes(),
        decoded_as(
            counted(
                parse_pointer(
                    old(reader).bytes(),
                    old(reader).offset(),
                    top_half,
                    jump_budget(old(reader).bytes().len()),
                ),
            ),
            r,
            final(reader).offset(),
        ),
{
    let jumps = reader.len();
    dns_name_compressed_within(reader, top_half, jumps)
}

} // verus!
