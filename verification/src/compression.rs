//! Chains of compression pointers: what following them gives, and why a
//! bound on their number loses nothing.

use crate::decode::jump_budget;
use crate::error::DNSError;
use crate::name::{
    after_labels, is_pointer, join_labels, parse_name, parse_pointer, pointer_target, NameRun,
};
use vstd::prelude::*;
use vstd::utf8::*;

verus! {

/// The target of the first pointer that decoding from `pos` comes to; nothing
/// where the name ends, or decoding fails, before a pointer is complete.
pub open spec fn first_jump(data: Seq<u8>, pos: int) -> Option<int>
    decreases data.len() - pos,
{
    if pos < 0 || pos >= data.len() || data[pos] == 0 {
        None
    } else if is_pointer(data[pos]) {
        if pos + 1 >= data.len() {
            None
        } else {
            Some(pointer_target(data[pos] & 0x3F, data[pos + 1]) as int)
        }
    } else {
        let len = data[pos] as int;
        if pos + 1 + len > data.len() || !valid_utf8(data.subrange(pos + 1, pos + 1 + len)) {
            None
        } else {
            first_jump(data, pos + 1 + len)
        }
    }
}

/// Whether decoding from `pos` comes to `n` pointers one behind the other.
pub open spec fn can_jump(data: Seq<u8>, pos: int, n: nat) -> bool
    decreases n,
{
    n == 0 || match first_jump(data, pos) {
        Some(target) => can_jump(data, target, (n - 1) as nat),
        None => false,
    }
}

/// Where decoding from `pos` stands after `n` jumps.
pub open spec fn jump_at(data: Seq<u8>, pos: int, n: nat) -> int
    decreases n,
{
    if n == 0 {
        pos
    } else {
        match first_jump(data, pos) {
            Some(target) => jump_at(data, target, (n - 1) as nat),
            None => pos,
        }
    }
}

/// The offset that the pointer at `pos` names.
pub open spec fn target_of(data: Seq<u8>, pos: int) -> int {
    pointer_target(data[pos] & 0x3F, data[pos + 1]) as int
}

/// What decoding gives at a pointer: with no jump left, the error; else what
/// decoding at the target gives with one jump less, as the one part of the
/// name.
pub proof fn lemma_parse_at_pointer(data: Seq<u8>, pos: int, jumps: nat)
    requires
        0 <= pos,
        pos + 1 < data.len(),
        is_pointer(data[pos]),
    ensures
        parse_name(data, pos, jumps) == if jumps == 0 {
            Err::<NameRun, DNSError>(DNSError::CompressionLoop)
        } else {
            match parse_name(data, target_of(data, pos), (jumps - 1) as nat) {
                Ok(run) => Ok(
                    NameRun {
                        parts: seq![join_labels(run.parts)],
                        read: run.read + 1,
                        end: pos + 2,
                    },
                ),
                Err(e) => Err(e),
            }
        },
{
    assert(data[pos] != 0) by {
        let b = data[pos];
        assert(b & 0xC0 == 0xC0 ==> b != 0) by (bit_vector);
    }
    let behind = parse_pointer(data, pos + 1, data[pos] & 0x3F, jumps);
    assert(parse_name(data, pos, jumps) == after_labels(Seq::empty(), 1, behind));
    if jumps > 0 {
        let found = parse_name(data, target_of(data, pos), (jumps - 1) as nat);
        if found is Ok {
            let part = join_labels(found->Ok_0.parts);
            assert(Seq::<Seq<u8>>::empty() + seq![part] =~= seq![part]);
        }
    }
}

/// Decoding runs out of jumps exactly where one more pointer comes than
/// jumps are allowed.
pub proof fn lemma_loop_error_is_a_jump_too_many(data: Seq<u8>, pos: int, jumps: nat)
    ensures
        parse_name(data, pos, jumps) == Err::<NameRun, DNSError>(DNSError::CompressionLoop)
            <==> can_jump(data, pos, jumps + 1),
    decreases jumps, data.len() - pos + 1,
{
    if pos < 0 || pos >= data.len() || data[pos] == 0 {
    } else if is_pointer(data[pos]) {
        if pos + 1 < data.len() {
            lemma_parse_at_pointer(data, pos, jumps);
            let target = target_of(data, pos);
            assert(first_jump(data, pos) == Some(target));
            if jumps > 0 {
                lemma_loop_error_is_a_jump_too_many(data, target, (jumps - 1) as nat);
            } else {
                assert(can_jump(data, target, 0));
            }
        } else {
            let behind = parse_pointer(data, pos + 1, data[pos] & 0x3F, jumps);
            assert(behind == Err::<NameRun, DNSError>(DNSError::IOError));
        }
    } else {
        let len = data[pos] as int;
        if pos + 1 + len <= data.len() && valid_utf8(data.subrange(pos + 1, pos + 1 + len)) {
            lemma_loop_error_is_a_jump_too_many(data, pos + 1 + len, jumps);
        }
    }
}

/// More jumps change nothing where the jumps allowed were enough.
pub proof fn lemma_more_jumps_change_nothing(data: Seq<u8>, pos: int, jumps: nat, more: nat)
    requires
        parse_name(data, pos, jumps) != Err::<NameRun, DNSError>(DNSError::CompressionLoop),
        jumps <= more,
    ensures
        parse_name(data, pos, more) == parse_name(data, pos, jumps),
    decreases jumps, data.len() - pos + 1,
{
    if pos < 0 || pos >= data.len() || data[pos] == 0 {
    } else if is_pointer(data[pos]) {
        if pos + 1 < data.len() {
            lemma_parse_at_pointer(data, pos, jumps);
            lemma_parse_at_pointer(data, pos, more);
            lemma_more_jumps_change_nothing(
                data,
                target_of(data, pos),
                (jumps - 1) as nat,
                (more - 1) as nat,
            );
        } else {
            assert(parse_pointer(data, pos + 1, data[pos] & 0x3F, jumps) == Err::<
                NameRun,
                DNSError,
            >(DNSError::IOError));
            assert(parse_pointer(data, pos + 1, data[pos] & 0x3F, more) == Err::<
                NameRun,
                DNSError,
            >(DNSError::IOError));
        }
    } else {
        let len = data[pos] as int;
        if pos + 1 + len <= data.len() && valid_utf8(data.subrange(pos + 1, pos + 1 + len)) {
            lemma_more_jumps_change_nothing(data, pos + 1 + len, jumps, more);
        }
    }
}

/// A place that a pointer is reached from lies in the message.
pub proof fn lemma_first_jump_from_within(data: Seq<u8>, pos: int)
    ensures
        first_jump(data, pos) is Some ==> 0 <= pos < data.len(),
{
}

/// Jumps can be made in two goes.
pub proof fn lemma_can_jump_split(data: Seq<u8>, pos: int, a: nat, b: nat)
    ensures
        can_jump(data, pos, a + b) <==> can_jump(data, pos, a) && can_jump(
            data,
            jump_at(data, pos, a),
            b,
        ),
        can_jump(data, pos, a + b) ==> jump_at(data, pos, a + b) == jump_at(
            data,
            jump_at(data, pos, a),
            b,
        ),
    decreases a,
{
    if a == 0 {
    } else {
        match first_jump(data, pos) {
            Some(target) => {
                lemma_can_jump_split(data, target, (a - 1) as nat, b);
                assert(((a - 1) as nat + b) as nat == (a + b - 1) as nat);
            },
            None => {},
        }
    }
}

/// Among more numbers than `m`, all of them from zero up to below `m`, two
/// are the same.
pub proof fn lemma_pigeonhole(s: Seq<int>, m: int) -> (r: (int, int))
    requires
        0 <= m < s.len(),
        forall|i: int| 0 <= i < s.len() ==> 0 <= #[trigger] s[i] < m,
    ensures
        0 <= r.0 < r.1 < s.len(),
        s[r.0] == s[r.1],
    decreases s.len(),
{
    let n = s.len() as int;
    let last = s[n - 1];
    if exists|i: int| 0 <= i < n - 1 && s[i] == last {
        let i = choose|i: int| 0 <= i < n - 1 && s[i] == last;
        (i, n - 1)
    } else {
        let shrunk = Seq::new(
            (n - 1) as nat,
            |i: int|
                if s[i] > last {
                    s[i] - 1
                } else {
                    s[i]
                },
        );
        assert forall|i: int| 0 <= i < shrunk.len() implies 0 <= #[trigger] shrunk[i] < m - 1 by {
            assert(0 <= s[i] < m);
            assert(s[i] != last);
        }
        let (a, b) = lemma_pigeonhole(shrunk, m - 1);
        assert(s[a] != last && s[b] != last);
        (a, b)
    }
}

/// From a place that jumps lead back to, any number of jumps can be made.
pub proof fn lemma_cycle_never_ends(data: Seq<u8>, pos: int, period: nat, n: nat)
    requires
        period > 0,
        can_jump(data, pos, period),
        jump_at(data, pos, period) == pos,
    ensures
        can_jump(data, pos, n),
    decreases n,
{
    if n <= period {
        lemma_can_jump_split(data, pos, n, (period - n) as nat);
    } else {
        lemma_cycle_never_ends(data, pos, period, (n - period) as nat);
        lemma_can_jump_split(data, pos, period, (n - period) as nat);
    }
}

/// More jumps than the message has bytes go in a circle: any number of jumps
/// can be made.
pub proof fn lemma_long_chain_is_a_cycle(data: Seq<u8>, pos: int, n: nat, m: nat)
    requires
        n > data.len(),
        can_jump(data, pos, n),
    ensures
        can_jump(data, pos, m),
{
    let places = Seq::new(n, |i: int| jump_at(data, pos, i as nat));
    assert forall|i: int| 0 <= i < places.len() implies 0 <= #[trigger] places[i] < data.len() by {
        lemma_can_jump_split(data, pos, i as nat, (n - i) as nat);
        lemma_first_jump_from_within(data, places[i]);
    }
    let (a, b) = lemma_pigeonhole(places, data.len() as int);
    let back = places[a];
    let period = (b - a) as nat;
    lemma_can_jump_split(data, pos, b as nat, (n - b) as nat);
    lemma_can_jump_split(data, pos, a as nat, period);
    assert(can_jump(data, back, period));
    assert(jump_at(data, back, period) == back);
    lemma_cycle_never_ends(data, back, period, m);
    lemma_can_jump_split(data, pos, a as nat, m);
    lemma_can_jump_split(data, pos, m, a as nat);
}

/// The bound on jumps loses nothing: where decoding with the jump budget of
/// the message, or more, runs out of jumps, it runs out of jumps with every
/// number of jumps allowed, because the pointers lead in a circle.
pub proof fn lemma_jump_budget_loses_nothing(data: Seq<u8>, pos: int, jumps: nat, other: nat)
    requires
        jumps >= jump_budget(data.len()),
        parse_name(data, pos, jumps) == Err::<NameRun, DNSError>(DNSError::CompressionLoop),
    ensures
        parse_name(data, pos, other) == Err::<NameRun, DNSError>(DNSError::CompressionLoop),
{
    lemma_loop_error_is_a_jump_too_many(data, pos, jumps);
    lemma_long_chain_is_a_cycle(data, pos, jumps + 1, other + 1);
    lemma_loop_error_is_a_jump_too_many(data, pos, other);
}

/// With the jump budget of the message or more, the number of jumps allowed
/// does not matter.
pub proof fn lemma_enough_jumps(data: Seq<u8>, pos: int, jumps: nat, other: nat)
    requires
        jumps >= jump_budget(data.len()),
        other >= jump_budget(data.len()),
    ensures
        parse_name(data, pos, jumps) == parse_name(data, pos, other),
{
    if parse_name(data, pos, jumps) == Err::<NameRun, DNSError>(DNSError::CompressionLoop) {
        lemma_jump_budget_loses_nothing(data, pos, jumps, other);
    } else if parse_name(data, pos, other) == Err::<NameRun, DNSError>(DNSError::CompressionLoop) {
        lemma_jump_budget_loses_nothing(data, pos, other, jumps);
    } else if jumps <= other {
        lemma_more_jumps_change_nothing(data, pos, jumps, other);
    } else {
        lemma_more_jumps_change_nothing(data, pos, other, jumps);
    }
}

/// A compressed name decodes as its target: where a pointer stands at
/// `pos`, decoding there gives the name that decoding at the offset it names
/// gives, and fails as decoding there fails. The pointer itself counts for one
/// byte read, and decoding ends behind its two bytes.
pub proof fn lemma_pointer_decodes_as_target(data: Seq<u8>, pos: int)
    requires
        0 <= pos,
        pos + 1 < data.len(),
        is_pointer(data[pos]),
    ensures
        match parse_name(data, target_of(data, pos), jump_budget(data.len())) {
            Ok(target) => {
                &&& parse_name(data, pos, jump_budget(data.len())) matches Ok(run)
                &&& join_labels(run.parts) == join_labels(target.parts)
                &&& run.read == target.read + 1
                &&& run.end == pos + 2
            },
            Err(e) => parse_name(data, pos, jump_budget(data.len())) == Err::<NameRun, DNSError>(e),
        },
{
    let budget = jump_budget(data.len());
    let target = target_of(data, pos);
    let less = (budget - 1) as nat;
    lemma_parse_at_pointer(data, pos, budget);
    if parse_name(data, target, less) == Err::<NameRun, DNSError>(DNSError::CompressionLoop) {
        lemma_parse_at_pointer(data, pos, budget + 1);
        lemma_jump_budget_loses_nothing(data, pos, budget, budget + 1);
    } else {
        lemma_more_jumps_change_nothing(data, target, less, budget);
        let found = parse_name(data, target, budget);
        if found is Ok {
            assert(join_labels(seq![join_labels(found->Ok_0.parts)]) == join_labels(
                found->Ok_0.parts,
            ));
        }
    }
}

} // verus!
