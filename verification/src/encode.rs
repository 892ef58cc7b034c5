//! Names into bytes.

use crate::error::DNSError;
use crate::name::{
    first_long_label, labels_of, lemma_first_label_len, lemma_first_label_valid_utf8,
    lemma_first_long_label_after, lemma_wire_labels_push, wire_labels, wire_name, DOT,
};
use crate::text::string_from_utf8;
use crate::wire::put_bytes;
use vstd::prelude::*;
use vstd::slice::{slice_subrange, slice_to_vec};
use vstd::utf8::*;

verus! {

/// Writes the wire form of `domain_name` to `writer`: each label behind a
/// length byte, and a zero length byte at the end.
///
/// A label of more than 255 bytes cannot be written. The name is written up
/// to the first such label, and the error holds that label and the name.
///
/// The count returned is that of the bytes written for the labels; the
/// terminating zero byte is not in it.
pub fn dns_name(writer: &mut Vec<u8>, domain_name: &str) -> (r: Result<usize, DNSError>)
    ensures
        ({
            let labels = labels_of(encode_utf8(domain_name@));
            let k = first_long_label(labels) as int;
            if k == labels.len() {
                &&& r matches Ok(n)
                &&& n == wire_labels(labels).len()
                &&& final(writer)@ == old(writer)@ + wire_name(encode_utf8(domain_name@))
            } else {
                &&& r matches Err(DNSError::DomainNameHasTooLongPart { part, domain_name: whole })
                &&& part@ == decode_utf8(labels[k])
                &&& whole@ == domain_name@
                &&& final(writer)@ == old(writer)@ + wire_labels(labels.take(k))
            }
        }),
{
    let bytes = domain_name.as_bytes();
    let n = bytes.len();
    let mut total: usize = 0;
    let mut start: usize = 0;
    let ghost mut done: Seq<Seq<u8>> = Seq::empty();
    proof {
        encode_utf8_valid_utf8(domain_name@);
        assert(bytes@.skip(0) =~= bytes@);
        assert(done + labels_of(bytes@) =~= labels_of(bytes@));
    }
    loop
        invariant_except_break
            start <= n,
            labels_of(bytes@) == done + labels_of(bytes@.skip(start as int)),
            valid_utf8(bytes@.skip(start as int)),
        invariant
            n == bytes@.len(),
            bytes@ == encode_utf8(domain_name@),
            first_long_label(done) == done.len(),
            writer@ == old(writer)@ + wire_labels(done),
            total == wire_labels(done).len(),
        ensures
            labels_of(bytes@) == done,
        decreases n - start,
    {
        let ghost rest = bytes@.skip(start as int);
        let mut end = start;
        while end < n && bytes[end] != DOT
            invariant
                start <= end <= n,
                n == bytes@.len(),
                forall|i: int| start <= i < end ==> bytes@[i] != DOT,
            decreases n - end,
        {
            end = end + 1;
        }
        let label = slice_subrange(bytes, start, end);
        let len = end - start;
        proof {
            lemma_first_label_len(rest, len as int);
            lemma_first_label_valid_utf8(rest);
            assert(label@ =~= rest.take(len as int));
            if end < n {
                assert(rest.skip(len as int + 1) =~= bytes@.skip(end as int + 1));
            }
        }
        if len > 255 {
            let part = string_from_utf8(slice_to_vec(label)).unwrap();
            proof {
                let labels = labels_of(bytes@);
                lemma_first_long_label_after(done, labels_of(rest));
                assert(labels_of(rest)[0] == label@);
                assert(labels.take(done.len() as int) =~= done);
                assert(labels[done.len() as int] == label@);
            }
            return Err(
                DNSError::DomainNameHasTooLongPart { part, domain_name: domain_name.to_owned() },
            );
        }
        writer.push(len as u8);
        put_bytes(writer, label);
        proof {
            lemma_wire_labels_push(done, label@);
            lemma_first_long_label_after(done, seq![label@]);
            assert(first_long_label(seq![label@].drop_first()) == 0);
            assert(done + seq![label@] =~= done.push(label@));
            assert(writer.len() == writer@.len());
        }
        total = total + 1 + len;
        if end == n {
            proof {
                assert(labels_of(rest) =~= seq![label@]);
                done = done.push(label@);
            }
            break ;
        }
        proof {
            assert(labels_of(rest) =~= seq![label@] + labels_of(bytes@.skip(end as int + 1)));
            assert(done + labels_of(rest) =~= done.push(label@) + labels_of(
                bytes@.skip(end as int + 1),
            ));
            done = done.push(label@);
        }
        start = end + 1;
    }
    writer.push(0);
    Ok(total)
}

} // verus!
