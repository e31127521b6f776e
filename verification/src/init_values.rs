//! Computation of the initial payload of a PDU from the init values of its signals.
//!
//! The PDU is first seen as a sequence of bits, all set to the PDU's unused bit
//! pattern. Each signal with an init value then overwrites the bits it occupies,
//! and finally the bits are packed into bytes.

use vstd::prelude::*;

use crate::arxml_structs::{ISignal, ISignalGroup, InitValues};

verus! {

/// Why the init values of a PDU could not be computed.
#[derive(Debug, PartialEq, Eq, Structural)]
pub enum InitValueError {
    /// A length or position does not fit into the machine's address width.
    ValueTooLarge,
    /// An array init value belongs to a signal whose bit length is not a multiple of 8.
    ArrayLengthNotByteMultiple { length: u64 },
    /// The bits of the init value do not match the signal's length.
    BitCountMismatch,
}

/// The bits of `n`, least significant first, without leading zeros.
pub open spec fn lsb_bits(n: nat) -> Seq<bool>
    decreases n,
{
    if n == 0 {
        Seq::empty()
    } else {
        seq![n % 2 == 1] + lsb_bits(n / 2)
    }
}

/// `s`, extended with `false` up to length `len` when it is shorter.
pub open spec fn pad_false(s: Seq<bool>, len: nat) -> Seq<bool> {
    if s.len() >= len {
        s
    } else {
        s + Seq::new((len - s.len()) as nat, |i: int| false)
    }
}

/// The bits of a single init value of a signal with `length` bits.
pub open spec fn single_value_bits(value: u64, length: nat, big_endian: bool) -> Seq<bool> {
    let bits = pad_false(lsb_bits(value as nat), length);
    if big_endian {
        bits.reverse()
    } else {
        bits
    }
}

/// The bits of one byte of an array init value, most significant first.
pub open spec fn byte_value_bits(value: u64) -> Seq<bool> {
    pad_false(lsb_bits(value as nat), 8).reverse()
}

/// The bits of an array init value: the bits of each value in turn.
pub open spec fn array_value_bits(values: Seq<u64>) -> Seq<bool>
    decreases values.len(),
{
    if values.len() == 0 {
        Seq::empty()
    } else {
        array_value_bits(values.drop_last()) + byte_value_bits(values.last())
    }
}

pub open spec fn has_init_value(s: ISignal) -> bool {
    s.init_values is Single || s.init_values is Array
}

/// The bits that the init value of a signal stands for.
pub open spec fn signal_bits(s: ISignal) -> Seq<bool> {
    match s.init_values {
        InitValues::Single(v) => single_value_bits(v, s.length as nat, s.byte_order),
        InitValues::Array(vs) => array_value_bits(vs@),
        InitValues::NotExist(_) => Seq::empty(),
    }
}

pub open spec fn positions_fit_usize(s: ISignal) -> bool {
    s.length <= usize::MAX && s.start_pos <= usize::MAX
}

/// The signal's init value is written into the PDU.
#[verifier::opaque]
pub open spec fn signal_is_written(s: ISignal) -> bool {
    &&& positions_fit_usize(s)
    &&& has_init_value(s)
    &&& (s.init_values is Array ==> s.length % 8 == 0)
    &&& signal_bits(s).len() == s.length
}

/// Processing the signal fails.
#[verifier::opaque]
pub open spec fn signal_fails(s: ISignal) -> bool {
    !positions_fit_usize(s) || (has_init_value(s) && !signal_is_written(s))
}

/// The error that processing a failing signal reports.
pub open spec fn signal_error(s: ISignal) -> InitValueError {
    if !positions_fit_usize(s) {
        InitValueError::ValueTooLarge
    } else if s.init_values is Array && s.length % 8 != 0 {
        InitValueError::ArrayLengthNotByteMultiple { length: s.length }
    } else {
        InitValueError::BitCountMismatch
    }
}

/// The signal lies inside the first `nbits` bits.
pub open spec fn signal_fits(s: ISignal, nbits: nat) -> bool {
    s.start_pos + s.length <= nbits
}

/// `bits` after the signal's init value has been written into it.
pub open spec fn write_signal(bits: Seq<bool>, s: ISignal) -> Seq<bool> {
    if signal_is_written(s) {
        Seq::new(
            bits.len(),
            |i: int|
                if s.start_pos <= i < s.start_pos + s.length {
                    signal_bits(s)[i - s.start_pos]
                } else {
                    bits[i]
                },
        )
    } else {
        bits
    }
}

/// `bits` after the init values of all `sigs` have been written into it, in order.
pub open spec fn write_signals(bits: Seq<bool>, sigs: Seq<ISignal>) -> Seq<bool>
    decreases sigs.len(),
{
    if sigs.len() == 0 {
        bits
    } else {
        write_signal(write_signals(bits, sigs.drop_last()), sigs.last())
    }
}

/// Every signal that is reached without an earlier failure, and that is written,
/// lies inside the first `nbits` bits.
#[verifier::opaque]
pub open spec fn written_signals_fit(sigs: Seq<ISignal>, nbits: nat) -> bool {
    forall|i: int|
        #![trigger sigs[i]]
        0 <= i < sigs.len() && (forall|j: int| 0 <= j < i ==> !signal_fails(sigs[j]))
            && signal_is_written(sigs[i]) ==> signal_fits(sigs[i], nbits)
}

/// `i` is the position of the first failing signal.
pub open spec fn is_first_failure(sigs: Seq<ISignal>, i: int) -> bool {
    &&& 0 <= i < sigs.len()
    &&& signal_fails(sigs[i])
    &&& forall|j: int| 0 <= j < i ==> !signal_fails(sigs[j])
}

pub open spec fn some_signal_fails(sigs: Seq<ISignal>) -> bool {
    exists|i: int| 0 <= i < sigs.len() && signal_fails(sigs[i])
}

/// The signals of all groups, group after group.
pub open spec fn signals_of_groups(groups: Seq<ISignalGroup>) -> Seq<ISignal>
    decreases groups.len(),
{
    if groups.len() == 0 {
        Seq::empty()
    } else {
        signals_of_groups(groups.drop_last()) + groups.last().isignals@
    }
}

/// The signals of a PDU in the order in which their init values are written.
pub open spec fn pdu_signals(ungrouped: Seq<ISignal>, grouped: Seq<ISignalGroup>) -> Seq<ISignal> {
    ungrouped + signals_of_groups(grouped)
}

/// The number that `b` stands for, most significant bit first.
pub open spec fn bits_value(b: Seq<bool>) -> nat
    decreases b.len(),
{
    if b.len() == 0 {
        0
    } else {
        bits_value(b.drop_last()) * 2 + if b.last() {
            1nat
        } else {
            0nat
        }
    }
}

/// Byte `i` of `bits`: its first bit is the most significant one when `big_endian`,
/// the least significant one otherwise.
pub open spec fn packed_byte(bits: Seq<bool>, i: int, big_endian: bool) -> nat {
    let chunk = bits.subrange(8 * i, 8 * i + 8);
    if big_endian {
        bits_value(chunk)
    } else {
        bits_value(chunk.reverse())
    }
}

pub open spec fn pack_bytes(bits: Seq<bool>, big_endian: bool) -> Seq<u8> {
    Seq::new(bits.len() / 8, |i: int| packed_byte(bits, i, big_endian) as u8)
}

/// The bits of a PDU of `length` bytes once all init values have been written.
pub open spec fn pdu_bits(unused_bit_pattern: bool, sigs: Seq<ISignal>, length: nat) -> Seq<bool> {
    write_signals(Seq::new(length * 8, |i: int| unused_bit_pattern), sigs)
}

/// The initial payload of a PDU.
pub open spec fn pdu_init_bytes(
    unused_bit_pattern: bool,
    ungrouped: Seq<ISignal>,
    grouped: Seq<ISignalGroup>,
    length: nat,
    big_endian: bool,
) -> Seq<u8> {
    pack_bytes(pdu_bits(unused_bit_pattern, pdu_signals(ungrouped, grouped), length), big_endian)
}

pub open spec fn exp2(n: nat) -> nat
    decreases n,
{
    if n == 0 {
        1
    } else {
        2 * exp2((n - 1) as nat)
    }
}

proof fn lemma_bits_value_bound(b: Seq<bool>)
    ensures
        bits_value(b) < exp2(b.len()),
    decreases b.len(),
{
    if b.len() > 0 {
        lemma_bits_value_bound(b.drop_last());
    }
}

proof fn lemma_packed_byte_bound(bits: Seq<bool>, i: int, big_endian: bool)
    requires
        0 <= i,
        8 * i + 8 <= bits.len(),
    ensures
        packed_byte(bits, i, big_endian) < 256,
{
    let chunk = bits.subrange(8 * i, 8 * i + 8);
    lemma_bits_value_bound(chunk);
    lemma_bits_value_bound(chunk.reverse());
    reveal_with_fuel(exp2, 9);
    assert(exp2(8) == 256);
}

/// The bits of `value`, least significant first, without leading zeros.
fn value_lsb_bits(value: u64) -> (out: Vec<bool>)
    ensures
        out@ == lsb_bits(value as nat),
{
    let mut out: Vec<bool> = Vec::new();
    let mut n: u64 = value;
    while n != 0
        invariant
            out@ + lsb_bits(n as nat) == lsb_bits(value as nat),
        decreases n,
    {
        let bit = n & 1 != 0;
        assert((n & 1 != 0) == (n % 2 == 1)) by (bit_vector);
        assert(n >> 1 == n / 2) by (bit_vector);
        let ghost before = out@;
        out.push(bit);
        n = n >> 1;
        assert(before + lsb_bits((n * 2 + (if bit { 1u64 } else { 0u64 })) as nat) == lsb_bits(value as nat));
        assert(out@ + lsb_bits(n as nat) =~= before + (seq![bit] + lsb_bits(n as nat)));
    }
    assert(out@ + lsb_bits(0) =~= out@);
    out
}

/// Extends `v` with `false` up to length `len`.
fn pad_with_false(v: &mut Vec<bool>, len: usize)
    ensures
        final(v)@ == pad_false(old(v)@, len as nat),
{
    let ghost start = v@;
    while v.len() < len
        invariant
            start.len() <= v.len(),
            v.len() <= len || v.len() == start.len(),
            v@ == start + Seq::new((v.len() - start.len()) as nat, |i: int| false),
        decreases len - v.len(),
    {
        v.push(false);
        assert(v@ =~= start + Seq::new((v.len() - start.len()) as nat, |i: int| false));
    }
    assert(start + Seq::new(0, |i: int| false) =~= start);
}

/// `v` in reverse order.
fn reversed(v: &Vec<bool>) -> (out: Vec<bool>)
    ensures
        out@ == v@.reverse(),
{
    let mut out: Vec<bool> = Vec::new();
    let mut i: usize = v.len();
    while i > 0
        invariant
            i <= v.len(),
            out@ == v@.subrange(i as int, v.len() as int).reverse(),
        decreases i,
    {
        i = i - 1;
        out.push(v[i]);
        assert(out@ =~= v@.subrange(i as int, v.len() as int).reverse());
    }
    assert(v@.subrange(0, v.len() as int) =~= v@);
    out
}

/// The bits that a single init value stands for.
fn single_init_bits(value: u64, length: usize, big_endian: bool) -> (out: Vec<bool>)
    ensures
        out@ == single_value_bits(value, length as nat, big_endian),
{
    let mut bits = value_lsb_bits(value);
    pad_with_false(&mut bits, length);
    if big_endian {
        reversed(&bits)
    } else {
        bits
    }
}

/// The bits that an array init value stands for.
fn array_init_bits(values: &Vec<u64>) -> (out: Vec<bool>)
    ensures
        out@ == array_value_bits(values@),
{
    let mut out: Vec<bool> = Vec::new();
    let mut i: usize = 0;
    while i < values.len()
        invariant
            i <= values.len(),
            out@ == array_value_bits(values@.take(i as int)),
        decreases values.len() - i,
    {
        let mut byte = value_lsb_bits(values[i]);
        pad_with_false(&mut byte, 8);
        let byte = reversed(&byte);
        let mut k: usize = 0;
        let ghost before = out@;
        while k < byte.len()
            invariant
                k <= byte.len(),
                out@ == before + byte@.take(k as int),
            decreases byte.len() - k,
        {
            out.push(byte[k]);
            k = k + 1;
            assert(out@ =~= before + byte@.take(k as int));
        }
        assert(byte@.take(byte.len() as int) =~= byte@);
        assert(values@.take(i + 1).drop_last() =~= values@.take(i as int));
        i = i + 1;
    }
    assert(values@.take(values.len() as int) =~= values@);
    out
}

/// Writes the init value of `isignal` into `bits`.
pub fn process_isignal_init_value(isignal: &ISignal, bits: &mut Vec<bool>) -> (result: Result<
    (),
    InitValueError,
>)
    requires
        signal_is_written(*isignal) ==> signal_fits(*isignal, old(bits)@.len()),
    ensures
        match result {
            Ok(()) => !signal_fails(*isignal) && final(bits)@ == write_signal(old(bits)@, *isignal),
            Err(e) => signal_fails(*isignal) && e == signal_error(*isignal) && final(bits)@ == old(
                bits,
            )@,
        },
{
    reveal(signal_is_written);
    reveal(signal_fails);
    if isignal.length > usize::MAX as u64 || isignal.start_pos > usize::MAX as u64 {
        return Err(InitValueError::ValueTooLarge);
    }
    let isignal_length = isignal.length as usize;
    let isignal_start = isignal.start_pos as usize;
    let tmp_bit_array = match &isignal.init_values {
        InitValues::Single(value) => single_init_bits(*value, isignal_length, isignal.byte_order),
        InitValues::Array(values) => {
            if isignal_length % 8 != 0 {
                return Err(InitValueError::ArrayLengthNotByteMultiple { length: isignal.length });
            }
            array_init_bits(values)
        },
        InitValues::NotExist(_) => {
            return Ok(());
        },
    };
    assert(tmp_bit_array@ == signal_bits(*isignal));
    if tmp_bit_array.len() != isignal_length {
        return Err(InitValueError::BitCountMismatch);
    }
    let ghost old_bits = bits@;
    let mut index: usize = 0;
    while index < isignal_length
        invariant
            index <= isignal_length,
            isignal_length == tmp_bit_array.len(),
            isignal_start + isignal_length <= old_bits.len(),
            bits.len() == old_bits.len(),
            bits@ == Seq::new(
                old_bits.len(),
                |i: int|
                    if isignal_start <= i < isignal_start + index {
                        tmp_bit_array@[i - isignal_start]
                    } else {
                        old_bits[i]
                    },
            ),
        decreases isignal_length - index,
    {
        bits.set(isignal_start + index, tmp_bit_array[index]);
        index = index + 1;
        assert(bits@ =~= Seq::new(
            old_bits.len(),
            |i: int|
                if isignal_start <= i < isignal_start + index {
                    tmp_bit_array@[i - isignal_start]
                } else {
                    old_bits[i]
                },
        ));
    }
    assert(bits@ =~= write_signal(old_bits, *isignal));
    Ok(())
}

proof fn lemma_exp2_mono(a: nat, b: nat)
    requires
        a <= b,
    ensures
        exp2(a) <= exp2(b),
    decreases b,
{
    if a < b {
        lemma_exp2_mono(a, (b - 1) as nat);
    }
}

proof fn lemma_groups_prefix(groups: Seq<ISignalGroup>, a: int)
    requires
        0 <= a <= groups.len(),
    ensures
        signals_of_groups(groups.take(a)).len() <= signals_of_groups(groups).len(),
        signals_of_groups(groups).subrange(0, signals_of_groups(groups.take(a)).len() as int)
            == signals_of_groups(groups.take(a)),
    decreases groups.len(),
{
    let sa = signals_of_groups(groups.take(a));
    if a == groups.len() {
        assert(groups.take(a) =~= groups);
        assert(signals_of_groups(groups).subrange(0, sa.len() as int) =~= sa);
    } else {
        lemma_groups_prefix(groups.drop_last(), a);
        assert(groups.drop_last().take(a) =~= groups.take(a));
        let all = signals_of_groups(groups);
        let front = signals_of_groups(groups.drop_last());
        assert(all == front + groups.last().isignals@);
        assert(all.subrange(0, sa.len() as int) =~= front.subrange(0, sa.len() as int));
    }
}

proof fn lemma_groups_take_step(groups: Seq<ISignalGroup>, g: int)
    requires
        0 <= g < groups.len(),
    ensures
        signals_of_groups(groups.take(g + 1)) == signals_of_groups(groups.take(g))
            + groups[g].isignals@,
{
    assert(groups.take(g + 1).drop_last() =~= groups.take(g));
}

proof fn lemma_write_signals_push(bits: Seq<bool>, done: Seq<ISignal>, s: ISignal)
    ensures
        write_signals(bits, done.push(s)) == write_signal(write_signals(bits, done), s),
{
    assert(done.push(s).drop_last() =~= done);
}

/// Byte `i` of `bits`, packed as [`packed_byte`] says.
fn pack_byte(bits: &Vec<bool>, i: usize, big_endian: bool) -> (b: u8)
    requires
        8 * i + 8 <= bits.len(),
    ensures
        b as nat == packed_byte(bits@, i as int, big_endian),
{
    let ghost chunk = bits@.subrange(8 * i, 8 * i + 8);
    let ghost ordered = if big_endian {
        chunk
    } else {
        chunk.reverse()
    };
    let mut acc: u8 = 0;
    let mut k: usize = 0;
    while k < 8
        invariant
            k <= 8,
            8 * i + 8 <= bits.len(),
            chunk == bits@.subrange(8 * i, 8 * i + 8),
            ordered == if big_endian {
                chunk
            } else {
                chunk.reverse()
            },
            acc as nat == bits_value(ordered.take(k as int)),
        decreases 8 - k,
    {
        proof {
            lemma_bits_value_bound(ordered.take(k as int));
            lemma_exp2_mono(k as nat, 7);
            reveal_with_fuel(exp2, 8);
        }
        let bit = if big_endian {
            bits[8 * i + k]
        } else {
            bits[8 * i + 7 - k]
        };
        assert(bit == ordered[k as int]);
        acc = acc * 2 + if bit {
            1u8
        } else {
            0u8
        };
        assert(ordered.take(k + 1).drop_last() =~= ordered.take(k as int));
        k = k + 1;
    }
    assert(ordered.take(8) =~= ordered);
    acc
}

/// Writes the init values of `signals` into `bits`, where `signals` follow the
/// already written `prior` signals inside the sequence `all`.
fn write_signal_list(
    signals: &Vec<ISignal>,
    bits: &mut Vec<bool>,
    Ghost(all): Ghost<Seq<ISignal>>,
    Ghost(prior): Ghost<Seq<ISignal>>,
    Ghost(init): Ghost<Seq<bool>>,
) -> (result: Result<(), InitValueError>)
    requires
        prior.len() + signals.len() <= all.len(),
        all.subrange(0, prior.len() + signals.len()) == prior + signals@,
        forall|j: int| 0 <= j < prior.len() ==> !signal_fails(#[trigger] prior[j]),
        old(bits)@ == write_signals(init, prior),
        written_signals_fit(all, old(bits)@.len()),
    ensures
        final(bits)@.len() == old(bits)@.len(),
        match result {
            Ok(()) => {
                let done = prior + signals@;
                &&& forall|j: int| 0 <= j < done.len() ==> !signal_fails(#[trigger] done[j])
                &&& final(bits)@ == write_signals(init, done)
            },
            Err(e) => exists|i: int| is_first_failure(all, i) && e == signal_error(all[i]),
        },
{
    let ghost mut done = prior;
    let ghost nbits = bits@.len();
    let mut j: usize = 0;
    while j < signals.len()
        invariant
            j <= signals.len(),
            prior.len() + signals.len() <= all.len(),
            all.subrange(0, prior.len() + signals.len()) == prior + signals@,
            done == prior + signals@.take(j as int),
            forall|k: int| 0 <= k < done.len() ==> !signal_fails(#[trigger] done[k]),
            bits@.len() == nbits,
            nbits == old(bits)@.len(),
            written_signals_fit(all, nbits),
            bits@ == write_signals(init, done),
        decreases signals.len() - j,
    {
        let ghost k = done.len() as int;
        assert(all.subrange(0, prior.len() + signals.len())[k] == all[k]);
        assert(all[k] == signals@[j as int]);
        assert forall|m: int| 0 <= m < k implies all[m] == done[m] by {
            assert(all.subrange(0, prior.len() + signals.len())[m] == all[m]);
        }
        assert(signal_is_written(signals@[j as int]) ==> signal_fits(signals@[j as int], nbits)) by {
            reveal(written_signals_fit);
        }
        let r = process_isignal_init_value(&signals[j], bits);
        if let Err(e) = r {
            assert(is_first_failure(all, k) && e == signal_error(all[k]));
            return Err(e);
        }
        proof {
            lemma_write_signals_push(init, done, signals@[j as int]);
            done = done.push(signals@[j as int]);
        }
        j = j + 1;
        assert(done =~= prior + signals@.take(j as int));
    }
    assert(signals@.take(signals.len() as int) =~= signals@);
    Ok(())
}

/// Computes the initial payload of a PDU of `length` bytes: all bits start as
/// `unused_bit_pattern`, then the init values of the ungrouped signals and of the
/// signals of each group are written in turn, and the bits are packed into bytes,
/// most significant bit first when `byte_order` is set, least significant first otherwise.
pub fn extract_init_values(
    unused_bit_pattern: bool,
    ungrouped_signals: &Vec<ISignal>,
    grouped_signals: &Vec<ISignalGroup>,
    length: u64,
    byte_order: &bool,
) -> (result: Result<Vec<u8>, InitValueError>)
    requires
        length <= usize::MAX ==> length * 8 <= usize::MAX,
        written_signals_fit(pdu_signals(ungrouped_signals@, grouped_signals@), length as nat * 8),
    ensures
        extract_outcome(
            unused_bit_pattern,
            ungrouped_signals@,
            grouped_signals@,
            length,
            *byte_order,
            result,
        ),
{
    if length > usize::MAX as u64 {
        return Err(InitValueError::ValueTooLarge);
    }
    let dlc = length as usize;
    let nbits = dlc * 8;
    let mut bits: Vec<bool> = Vec::new();
    while bits.len() < nbits
        invariant
            bits.len() <= nbits,
            bits@ == Seq::new(bits.len() as nat, |i: int| unused_bit_pattern),
        decreases nbits - bits.len(),
    {
        bits.push(unused_bit_pattern);
        assert(bits@ =~= Seq::new(bits.len() as nat, |i: int| unused_bit_pattern));
    }
    let ghost init = bits@;
    let ghost sigs = pdu_signals(ungrouped_signals@, grouped_signals@);
    assert(init =~= Seq::new(length as nat * 8, |i: int| unused_bit_pattern));
    proof {
        lemma_groups_prefix(grouped_signals@, 0);
        assert(grouped_signals@.take(0) =~= Seq::<ISignalGroup>::empty());
        assert(sigs.subrange(0, ungrouped_signals.len() as int) =~= Seq::empty() + ungrouped_signals@);
        assert(write_signals(init, Seq::empty()) == init);
    }
    write_signal_list(ungrouped_signals, &mut bits, Ghost(sigs), Ghost(Seq::empty()), Ghost(init))?;
    assert(Seq::<ISignal>::empty() + ungrouped_signals@ =~= ungrouped_signals@ + signals_of_groups(grouped_signals@.take(0)));

    let mut g: usize = 0;
    while g < grouped_signals.len()
        invariant
            g <= grouped_signals.len(),
            length <= usize::MAX,
            sigs == pdu_signals(ungrouped_signals@, grouped_signals@),
            written_signals_fit(sigs, nbits as nat),
            bits.len() == nbits,
            ({
                let done = ungrouped_signals@ + signals_of_groups(grouped_signals@.take(g as int));
                &&& forall|j: int| 0 <= j < done.len() ==> !signal_fails(#[trigger] done[j])
                &&& bits@ == write_signals(init, done)
            }),
        decreases grouped_signals.len() - g,
    {
        let ghost group_start = ungrouped_signals@ + signals_of_groups(grouped_signals@.take(g as int));
        proof {
            lemma_groups_prefix(grouped_signals@, g + 1);
            lemma_groups_take_step(grouped_signals@, g as int);
            let sgt = signals_of_groups(grouped_signals@.take(g + 1));
            let sga = signals_of_groups(grouped_signals@);
            assert(sga.subrange(0, sgt.len() as int) == sgt);
            assert(sgt.len() <= sga.len());
            assert(sigs.subrange(0, ungrouped_signals.len() + sgt.len()) =~= ungrouped_signals@ + sgt) by {
                assert forall|m: int| 0 <= m < ungrouped_signals.len() + sgt.len() implies
                    sigs.subrange(0, ungrouped_signals.len() + sgt.len())[m] == (ungrouped_signals@ + sgt)[m] by {
                    if m >= ungrouped_signals.len() {
                        assert(sga.subrange(0, sgt.len() as int)[m - ungrouped_signals.len()] == sga[m - ungrouped_signals.len()]);
                    }
                }
            }
            assert(ungrouped_signals@ + sgt =~= group_start + grouped_signals@[g as int].isignals@);
        }
        write_signal_list(&grouped_signals[g].isignals, &mut bits, Ghost(sigs), Ghost(group_start), Ghost(init))?;
        g = g + 1;
        assert(group_start + grouped_signals@[g - 1].isignals@ =~= ungrouped_signals@ + signals_of_groups(grouped_signals@.take(g as int)));
    }
    assert(grouped_signals@.take(grouped_signals.len() as int) =~= grouped_signals@);
    assert(!some_signal_fails(sigs));

    let mut init_values: Vec<u8> = Vec::new();
    let mut b: usize = 0;
    assert((dlc * 8) / 8 == dlc) by (nonlinear_arith);
    while b < dlc
        invariant
            b <= dlc,
            bits.len() == dlc * 8,
            bits@.len() / 8 == dlc,
            init_values@ == pack_bytes(bits@, *byte_order).take(b as int),
        decreases dlc - b,
    {
        let byte = pack_byte(&bits, b, *byte_order);
        proof {
            lemma_packed_byte_bound(bits@, b as int, *byte_order);
        }
        init_values.push(byte);
        b = b + 1;
        assert(init_values@ =~= pack_bytes(bits@, *byte_order).take(b as int));
    }
    assert(init_values@ =~= pack_bytes(bits@, *byte_order));
    Ok(init_values)
}


/// Whether the init value of `s` is written into a PDU.
fn signal_is_written_now(s: &ISignal) -> (r: bool)
    ensures
        r == signal_is_written(*s),
{
    reveal(signal_is_written);
    if s.length > usize::MAX as u64 || s.start_pos > usize::MAX as u64 {
        return false;
    }
    let length = s.length as usize;
    match &s.init_values {
        InitValues::Single(value) => single_init_bits(*value, length, s.byte_order).len() == length,
        InitValues::Array(values) => length % 8 == 0 && array_init_bits(values).len() == length,
        InitValues::NotExist(_) => false,
    }
}

/// Whether processing `s` fails.
fn signal_fails_now(s: &ISignal) -> (r: bool)
    ensures
        r == signal_fails(*s),
{
    reveal(signal_fails);
    let written = signal_is_written_now(s);
    let has_init_value = match &s.init_values {
        InitValues::NotExist(_) => false,
        _ => true,
    };
    s.length > usize::MAX as u64 || s.start_pos > usize::MAX as u64 || (has_init_value && !written)
}

proof fn lemma_failing_not_written(s: ISignal)
    ensures
        signal_fails(s) ==> !signal_is_written(s),
{
    reveal(signal_fails);
    reveal(signal_is_written);
}

/// Checks the signals of `list`, which come after `done` among `sigs`: `None`
/// when none fails and every written one lies inside the first `nbits` bits, or
/// else whether [`written_signals_fit`] holds of `sigs`.
fn check_signal_list(
    list: &Vec<ISignal>,
    nbits: u128,
    Ghost(sigs): Ghost<Seq<ISignal>>,
    Ghost(done): Ghost<Seq<ISignal>>,
) -> (r: Option<bool>)
    requires
        done.len() + list@.len() <= sigs.len(),
        sigs.subrange(0, (done.len() + list@.len()) as int) == done + list@,
        forall|j: int|
            0 <= j < done.len() ==> !signal_fails(#[trigger] done[j]) && (signal_is_written(done[j])
                ==> signal_fits(done[j], nbits as nat)),
    ensures
        match r {
            None => forall|j: int|
                0 <= j < (done + list@).len() ==> !signal_fails(#[trigger] (done + list@)[j]) && (
                signal_is_written((done + list@)[j]) ==> signal_fits((done + list@)[j], nbits as nat)),
            Some(b) => b == written_signals_fit(sigs, nbits as nat),
        },
{
    let ghost prefix = done + list@;
    assert forall|j: int| 0 <= j < prefix.len() implies sigs[j] == #[trigger] prefix[j] by {
        assert(sigs.subrange(0, prefix.len() as int)[j] == sigs[j]);
    }
    assert forall|j: int| 0 <= j < done.len() implies !signal_fails(#[trigger] sigs[j]) && (
    signal_is_written(sigs[j]) ==> signal_fits(sigs[j], nbits as nat)) by {
        assert(prefix[j] == done[j]);
        assert(sigs[j] == prefix[j]);
    }
    let mut i: usize = 0;
    while i < list.len()
        invariant
            i <= list@.len(),
            prefix == done + list@,
            prefix.len() <= sigs.len(),
            forall|j: int| 0 <= j < prefix.len() ==> sigs[j] == #[trigger] prefix[j],
            forall|j: int|
                0 <= j < done.len() + i ==> !signal_fails(#[trigger] sigs[j]) && (signal_is_written(sigs[j])
                    ==> signal_fits(sigs[j], nbits as nat)),
        decreases list.len() - i,
    {
        let s = &list[i];
        let ghost p = done.len() + i;
        assert(prefix[p] == list@[i as int]);
        assert(sigs[p] == *s);
        if signal_fails_now(s) {
            proof {
                reveal(written_signals_fit);
                assert forall|k: int|
                    #![trigger sigs[k]]
                    0 <= k < sigs.len() && (forall|j: int| 0 <= j < k ==> !signal_fails(sigs[j]))
                        && signal_is_written(sigs[k]) implies signal_fits(sigs[k], nbits as nat) by {
                    if k == p {
                        lemma_failing_not_written(sigs[k]);
                    } else if k > p {
                        assert(signal_fails(sigs[p]));
                    }
                }
            }
            return Some(true);
        }
        if signal_is_written_now(s) && !((s.start_pos as u128) + (s.length as u128) <= nbits) {
            proof {
                reveal(written_signals_fit);
                assert(!signal_fits(sigs[p], nbits as nat));
                assert forall|j: int| 0 <= j < p implies !signal_fails(#[trigger] sigs[j]) by {}
            }
            return Some(false);
        }
        i = i + 1;
    }
    None
}

/// Whether the init values of the signals of a PDU (ungrouped, then group by
/// group) can be written into `nbits` bits: whether [`written_signals_fit`]
/// holds.
pub fn signals_fit(
    ungrouped_signals: &Vec<ISignal>,
    grouped_signals: &Vec<ISignalGroup>,
    nbits: u128,
) -> (r: bool)
    ensures
        r == written_signals_fit(pdu_signals(ungrouped_signals@, grouped_signals@), nbits as nat),
{
    let ghost sigs = pdu_signals(ungrouped_signals@, grouped_signals@);
    proof {
        lemma_groups_prefix(grouped_signals@, 0);
        assert(grouped_signals@.take(0) =~= Seq::<ISignalGroup>::empty());
        assert(sigs.subrange(0, ungrouped_signals.len() as int) =~= Seq::empty() + ungrouped_signals@);
    }
    match check_signal_list(ungrouped_signals, nbits, Ghost(sigs), Ghost(Seq::empty())) {
        Some(b) => {
            return b;
        },
        None => {},
    }
    assert(Seq::<ISignal>::empty() + ungrouped_signals@ =~= ungrouped_signals@ + signals_of_groups(
        grouped_signals@.take(0),
    ));
    let mut g: usize = 0;
    while g < grouped_signals.len()
        invariant
            g <= grouped_signals.len(),
            sigs == pdu_signals(ungrouped_signals@, grouped_signals@),
            ({
                let done = ungrouped_signals@ + signals_of_groups(grouped_signals@.take(g as int));
                forall|j: int|
                    0 <= j < done.len() ==> !signal_fails(#[trigger] done[j]) && (signal_is_written(
                        done[j],
                    ) ==> signal_fits(done[j], nbits as nat))
            }),
        decreases grouped_signals.len() - g,
    {
        let ghost group_start = ungrouped_signals@ + signals_of_groups(grouped_signals@.take(g as int));
        proof {
            lemma_groups_prefix(grouped_signals@, g + 1);
            lemma_groups_take_step(grouped_signals@, g as int);
            let sgt = signals_of_groups(grouped_signals@.take(g + 1));
            let sga = signals_of_groups(grouped_signals@);
            assert(sga.subrange(0, sgt.len() as int) == sgt);
            assert(sgt.len() <= sga.len());
            assert(sigs.subrange(0, ungrouped_signals.len() + sgt.len()) =~= ungrouped_signals@ + sgt) by {
                assert forall|m: int| 0 <= m < ungrouped_signals.len() + sgt.len() implies
                    sigs.subrange(0, ungrouped_signals.len() + sgt.len())[m] == (ungrouped_signals@ + sgt)[m] by {
                    if m >= ungrouped_signals.len() {
                        assert(sga.subrange(0, sgt.len() as int)[m - ungrouped_signals.len()] == sga[m - ungrouped_signals.len()]);
                    }
                }
            }
            assert(ungrouped_signals@ + sgt =~= group_start + grouped_signals@[g as int].isignals@);
        }
        match check_signal_list(&grouped_signals[g].isignals, nbits, Ghost(sigs), Ghost(group_start)) {
            Some(b) => {
                return b;
            },
            None => {},
        }
        g = g + 1;
        assert(group_start + grouped_signals@[g - 1].isignals@ =~= ungrouped_signals@ + signals_of_groups(grouped_signals@.take(g as int)));
    }
    proof {
        assert(grouped_signals@.take(grouped_signals.len() as int) =~= grouped_signals@);
        reveal(written_signals_fit);
    }
    true
}

/// What [`extract_init_values`] answers for a PDU of `length` bytes in the
/// given byte order: its initial payload, or the error of the first signal that
/// cannot be written, or `ValueTooLarge` for a length beyond `usize`.
pub open spec fn extract_outcome(
    unused_bit_pattern: bool,
    ungrouped: Seq<ISignal>,
    grouped: Seq<ISignalGroup>,
    length: u64,
    big_endian: bool,
    result: Result<Vec<u8>, InitValueError>,
) -> bool {
    let sigs = pdu_signals(ungrouped, grouped);
    match result {
        Ok(bytes) => {
            &&& length <= usize::MAX
            &&& !some_signal_fails(sigs)
            &&& bytes@ == pdu_init_bytes(unused_bit_pattern, ungrouped, grouped, length as nat, big_endian)
        },
        Err(e) => {
            ||| length > usize::MAX && e == InitValueError::ValueTooLarge
            ||| length <= usize::MAX && exists|i: int| is_first_failure(sigs, i) && e == signal_error(sigs[i])
        },
    }
}

/// The two byte orders of [`extract_init_values`], called on the same signals
/// and length, fail alike, with the same error, or both succeed; then each byte
/// of the little-endian payload is the byte of the big-endian payload with its
/// bits in reverse order.
pub proof fn law_extract_init_values_byte_orders(
    unused_bit_pattern: bool,
    ungrouped: Seq<ISignal>,
    grouped: Seq<ISignalGroup>,
    length: u64,
    big: Result<Vec<u8>, InitValueError>,
    little: Result<Vec<u8>, InitValueError>,
)
    requires
        extract_outcome(unused_bit_pattern, ungrouped, grouped, length, true, big),
        extract_outcome(unused_bit_pattern, ungrouped, grouped, length, false, little),
    ensures
        big is Ok <==> little is Ok,
        big matches Err(e1) ==> little matches Err(e2) && e1 == e2,
        big matches Ok(b) ==> little matches Ok(l) && l@.len() == b@.len() && forall|k: int|
            0 <= k < b@.len() ==> l@[k] == reverse_byte(#[trigger] b@[k]),
{
    let sigs = pdu_signals(ungrouped, grouped);
    if let Err(e1) = big {
        if let Err(e2) = little {
            if length <= usize::MAX {
                let i1 = choose|i: int| is_first_failure(sigs, i) && e1 == signal_error(sigs[i]);
                let i2 = choose|i: int| is_first_failure(sigs, i) && e2 == signal_error(sigs[i]);
                if i1 < i2 {
                    assert(!signal_fails(sigs[i1]));
                } else if i2 < i1 {
                    assert(!signal_fails(sigs[i2]));
                }
            }
        } else {
            if length <= usize::MAX {
                let i1 = choose|i: int| is_first_failure(sigs, i) && e1 == signal_error(sigs[i]);
                assert(is_first_failure(sigs, i1));
            }
        }
    }
    if let Ok(b) = big {
        if let Err(e2) = little {
            if length <= usize::MAX {
                let i2 = choose|i: int| is_first_failure(sigs, i) && e2 == signal_error(sigs[i]);
                assert(is_first_failure(sigs, i2));
            }
        }
        if let Ok(l) = little {
            assert forall|k: int| 0 <= k < b@.len() implies l@[k] == reverse_byte(#[trigger] b@[k]) by {
                law_byte_orders_reverse_the_bits_of_each_byte(unused_bit_pattern, ungrouped, grouped, length as nat, k);
            }
        }
    }
}

/// The byte with the bits of `b` in reverse order: the least significant bit
/// becomes the most significant one, and so on.
pub open spec fn reverse_byte(b: u8) -> u8 {
    ((b & 0x01u8) << 7u8) | ((b & 0x02u8) << 5u8) | ((b & 0x04u8) << 3u8) | ((b & 0x08u8) << 1u8) | ((b
        & 0x10u8) >> 1u8) | ((b & 0x20u8) >> 3u8) | ((b & 0x40u8) >> 5u8) | ((b & 0x80u8) >> 7u8)
}

/// 1 for a set bit, 0 otherwise.
pub open spec fn bit_of(x: bool) -> u8 {
    if x {
        1
    } else {
        0
    }
}

proof fn lemma_bits8(s: Seq<bool>)
    requires
        s.len() == 8,
    ensures
        bits_value(s) == bit_of(s[0]) * 128 + bit_of(s[1]) * 64 + bit_of(s[2]) * 32 + bit_of(s[3]) * 16
            + bit_of(s[4]) * 8 + bit_of(s[5]) * 4 + bit_of(s[6]) * 2 + bit_of(s[7]),
{
    assert(s.take(0).len() == 0);
    assert(bits_value(s.take(0)) == 0);
    assert(s.take(1).drop_last() =~= s.take(0));
    assert(s.take(1).last() == s[0]);
    assert(s.take(2).drop_last() =~= s.take(1));
    assert(s.take(2).last() == s[1]);
    assert(s.take(3).drop_last() =~= s.take(2));
    assert(s.take(3).last() == s[2]);
    assert(s.take(4).drop_last() =~= s.take(3));
    assert(s.take(4).last() == s[3]);
    assert(s.take(5).drop_last() =~= s.take(4));
    assert(s.take(5).last() == s[4]);
    assert(s.take(6).drop_last() =~= s.take(5));
    assert(s.take(6).last() == s[5]);
    assert(s.take(7).drop_last() =~= s.take(6));
    assert(s.take(7).last() == s[6]);
    assert(s.take(8).drop_last() =~= s.take(7));
    assert(s.take(8).last() == s[7]);
    assert(s.take(8) =~= s);
    assert(bits_value(s.take(1)) == bits_value(s.take(0)) * 2 + bit_of(s[0]));
    assert(bits_value(s.take(2)) == bits_value(s.take(1)) * 2 + bit_of(s[1]));
    assert(bits_value(s.take(3)) == bits_value(s.take(2)) * 2 + bit_of(s[2]));
    assert(bits_value(s.take(4)) == bits_value(s.take(3)) * 2 + bit_of(s[3]));
    assert(bits_value(s.take(5)) == bits_value(s.take(4)) * 2 + bit_of(s[4]));
    assert(bits_value(s.take(6)) == bits_value(s.take(5)) * 2 + bit_of(s[5]));
    assert(bits_value(s.take(7)) == bits_value(s.take(6)) * 2 + bit_of(s[6]));
    assert(bits_value(s.take(8)) == bits_value(s.take(7)) * 2 + bit_of(s[7]));
}

proof fn lemma_reverse_byte(x0: u8, x1: u8, x2: u8, x3: u8, x4: u8, x5: u8, x6: u8, x7: u8)
    by (bit_vector)
    requires
        x0 <= 1 && x1 <= 1 && x2 <= 1 && x3 <= 1 && x4 <= 1 && x5 <= 1 && x6 <= 1 && x7 <= 1,
    ensures
        reverse_byte((x0 * 128 + x1 * 64 + x2 * 32 + x3 * 16 + x4 * 8 + x5 * 4 + x6 * 2 + x7) as u8)
            == (x7 * 128 + x6 * 64 + x5 * 32 + x4 * 16 + x3 * 8 + x2 * 4 + x1 * 2 + x0) as u8,
{
}

/// The two byte orders of [`extract_init_values`] give the same payload bits: each
/// byte of the little-endian payload is the byte of the big-endian payload with
/// its bits in reverse order.
pub proof fn law_byte_orders_reverse_the_bits_of_each_byte(
    unused_bit_pattern: bool,
    ungrouped: Seq<ISignal>,
    grouped: Seq<ISignalGroup>,
    length: nat,
    i: int,
)
    requires
        0 <= i < pdu_init_bytes(unused_bit_pattern, ungrouped, grouped, length, true).len(),
    ensures
        pdu_init_bytes(unused_bit_pattern, ungrouped, grouped, length, false).len() == pdu_init_bytes(
            unused_bit_pattern,
            ungrouped,
            grouped,
            length,
            true,
        ).len(),
        pdu_init_bytes(unused_bit_pattern, ungrouped, grouped, length, false)[i] == reverse_byte(
            pdu_init_bytes(unused_bit_pattern, ungrouped, grouped, length, true)[i],
        ),
{
    let bits = pdu_bits(unused_bit_pattern, pdu_signals(ungrouped, grouped), length);
    let chunk = bits.subrange(8 * i, 8 * i + 8);
    let rev = chunk.reverse();
    lemma_bits8(chunk);
    lemma_bits8(rev);
    assert(rev[0] == chunk[7] && rev[1] == chunk[6] && rev[2] == chunk[5] && rev[3] == chunk[4]);
    assert(rev[4] == chunk[3] && rev[5] == chunk[2] && rev[6] == chunk[1] && rev[7] == chunk[0]);
    lemma_reverse_byte(
        bit_of(chunk[0]),
        bit_of(chunk[1]),
        bit_of(chunk[2]),
        bit_of(chunk[3]),
        bit_of(chunk[4]),
        bit_of(chunk[5]),
        bit_of(chunk[6]),
        bit_of(chunk[7]),
    );
}

/// `b` is the signal `a` with possibly another byte order, where both carry the
/// same array init value.
pub open spec fn same_array_signal(a: ISignal, b: ISignal) -> bool {
    &&& a.name == b.name
    &&& a.start_pos == b.start_pos
    &&& a.length == b.length
    &&& a.init_values matches InitValues::Array(x)
    &&& b.init_values matches InitValues::Array(y)
    &&& x@ == y@
}

/// Writing an array init value does not look at the signal's byte order: two
/// signals that differ only in it fail alike, with the same error, and write
/// the same bits.
pub proof fn law_array_init_values_ignore_the_byte_order(a: ISignal, b: ISignal, bits: Seq<bool>)
    requires
        same_array_signal(a, b),
    ensures
        signal_fails(a) == signal_fails(b),
        signal_error(a) == signal_error(b),
        write_signal(bits, a) == write_signal(bits, b),
{
    reveal(signal_is_written);
    reveal(signal_fails);
    assert(signal_bits(a) == signal_bits(b));
}

proof fn lemma_write_signals_same(bits: Seq<bool>, s1: Seq<ISignal>, s2: Seq<ISignal>)
    requires
        s1.len() == s2.len(),
        forall|i: int| 0 <= i < s1.len() ==> s1[i] == s2[i] || same_array_signal(s1[i], s2[i]),
    ensures
        write_signals(bits, s1) == write_signals(bits, s2),
    decreases s1.len(),
{
    if s1.len() > 0 {
        lemma_write_signals_same(bits, s1.drop_last(), s2.drop_last());
        let last = s1.len() - 1;
        if s1[last] != s2[last] {
            law_array_init_values_ignore_the_byte_order(s1[last], s2[last], write_signals(bits, s1.drop_last()));
        }
    }
}

/// The payload that [`extract_init_values`] computes does not depend on the
/// byte order of the signals that carry array init values: two calls whose
/// signals differ only in that answer alike, with the same payload or the same
/// error.
pub proof fn law_extract_ignores_the_byte_order_of_array_signals(
    unused_bit_pattern: bool,
    ungrouped1: Seq<ISignal>,
    ungrouped2: Seq<ISignal>,
    grouped: Seq<ISignalGroup>,
    length: u64,
    big_endian: bool,
    r1: Result<Vec<u8>, InitValueError>,
    r2: Result<Vec<u8>, InitValueError>,
)
    requires
        ungrouped1.len() == ungrouped2.len(),
        forall|i: int|
            0 <= i < ungrouped1.len() ==> ungrouped1[i] == ungrouped2[i] || same_array_signal(
                ungrouped1[i],
                ungrouped2[i],
            ),
        extract_outcome(unused_bit_pattern, ungrouped1, grouped, length, big_endian, r1),
        extract_outcome(unused_bit_pattern, ungrouped2, grouped, length, big_endian, r2),
    ensures
        r1 is Ok <==> r2 is Ok,
        r1 matches Ok(b1) ==> r2 matches Ok(b2) && b1@ == b2@,
        r1 matches Err(e1) ==> r2 matches Err(e2) && e1 == e2,
{
    let s1 = pdu_signals(ungrouped1, grouped);
    let s2 = pdu_signals(ungrouped2, grouped);
    assert forall|i: int| 0 <= i < s1.len() implies s1[i] == s2[i] || same_array_signal(s1[i], s2[i]) by {
        if i >= ungrouped1.len() {
            assert(s1[i] == signals_of_groups(grouped)[i - ungrouped1.len()]);
            assert(s2[i] == signals_of_groups(grouped)[i - ungrouped1.len()]);
        } else {
            assert(s1[i] == ungrouped1[i]);
            assert(s2[i] == ungrouped2[i]);
        }
    }
    assert forall|i: int| 0 <= i < s1.len() implies #[trigger] signal_fails(s1[i]) == signal_fails(s2[i])
        && signal_error(s1[i]) == signal_error(s2[i]) by {
        if s1[i] != s2[i] {
            law_array_init_values_ignore_the_byte_order(s1[i], s2[i], Seq::empty());
        }
    }
    lemma_write_signals_same(Seq::new(length as nat * 8, |i: int| unused_bit_pattern), s1, s2);
    if let Err(e1) = r1 {
        if length <= usize::MAX {
            let i1 = choose|i: int| is_first_failure(s1, i) && e1 == signal_error(s1[i]);
            assert(is_first_failure(s2, i1));
            if let Err(e2) = r2 {
                let i2 = choose|i: int| is_first_failure(s2, i) && e2 == signal_error(s2[i]);
                assert(is_first_failure(s1, i2));
                if i1 < i2 {
                    assert(!signal_fails(s2[i1]));
                } else if i2 < i1 {
                    assert(!signal_fails(s1[i2]));
                }
            }
        }
    }
    if let Err(e2) = r2 {
        if length <= usize::MAX {
            let i2 = choose|i: int| is_first_failure(s2, i) && e2 == signal_error(s2[i]);
            assert(is_first_failure(s1, i2));
        }
    }
}

proof fn lemma_exp2_positive(m: nat)
    ensures
        exp2(m) > 0,
    decreases m,
{
    if m > 0 {
        lemma_exp2_positive((m - 1) as nat);
    }
}

proof fn lemma_lsb_bits_index(v: nat, i: int)
    requires
        0 <= i < lsb_bits(v).len(),
    ensures
        lsb_bits(v)[i] == ((v / exp2(i as nat)) % 2 == 1),
    decreases v,
{
    if i > 0 {
        assert(lsb_bits(v)[i] == lsb_bits(v / 2)[i - 1]);
        lemma_lsb_bits_index(v / 2, i - 1);
        lemma_exp2_positive((i - 1) as nat);
        vstd::arithmetic::div_mod::lemma_div_denominator(v as int, 2, exp2((i - 1) as nat) as int);
        assert(exp2(i as nat) == 2 * exp2((i - 1) as nat));
        assert((v / 2) / exp2((i - 1) as nat) == v / exp2(i as nat));
    } else {
        assert(v > 0);
        assert(exp2(0) == 1);
        assert(v / 1 == v);
    }
}

proof fn lemma_lsb_bits_bound(v: nat)
    ensures
        v < exp2(lsb_bits(v).len()),
    decreases v,
{
    if v > 0 {
        lemma_lsb_bits_bound(v / 2);
        assert(lsb_bits(v).len() == lsb_bits(v / 2).len() + 1);
    }
}

proof fn lemma_lsb_bits_short(v: nat, m: nat)
    requires
        v < exp2(m),
    ensures
        lsb_bits(v).len() <= m,
    decreases v,
{
    if v > 0 {
        assert(m > 0);
        assert(v / 2 < exp2((m - 1) as nat));
        lemma_lsb_bits_short(v / 2, (m - 1) as nat);
    }
}

proof fn lemma_high_bits_zero(v: nat, i: nat)
    requires
        i >= lsb_bits(v).len(),
    ensures
        (v / exp2(i)) % 2 == 0,
{
    lemma_lsb_bits_bound(v);
    lemma_exp2_mono(lsb_bits(v).len(), i);
    lemma_exp2_positive(i);
    vstd::arithmetic::div_mod::lemma_basic_div(v as int, exp2(i) as int);
}

proof fn lemma_byte_value_bits(v: u64, j: int)
    requires
        v < 256,
        0 <= j < 8,
    ensures
        byte_value_bits(v).len() == 8,
        byte_value_bits(v)[j] == ((v as nat / exp2((7 - j) as nat)) % 2 == 1),
{
    reveal_with_fuel(exp2, 9);
    lemma_lsb_bits_short(v as nat, 8);
    let l = lsb_bits(v as nat);
    let padded = pad_false(l, 8);
    assert(padded.len() == 8);
    assert(byte_value_bits(v)[j] == padded[7 - j]);
    if 7 - j < l.len() {
        lemma_lsb_bits_index(v as nat, 7 - j);
    } else {
        lemma_high_bits_zero(v as nat, (7 - j) as nat);
    }
}

proof fn lemma_array_value_bits(vs: Seq<u64>)
    requires
        forall|m: int| 0 <= m < vs.len() ==> vs[m] < 256,
    ensures
        array_value_bits(vs).len() == 8 * vs.len(),
        forall|k: int, j: int|
            0 <= k < vs.len() && 0 <= j < 8 ==> #[trigger] array_value_bits(vs)[8 * k + j] == ((vs[k] as nat
                / exp2((7 - j) as nat)) % 2 == 1),
    decreases vs.len(),
{
    if vs.len() > 0 {
        let front = vs.drop_last();
        lemma_array_value_bits(front);
        lemma_byte_value_bits(vs.last(), 0);
        assert forall|k: int, j: int|
            0 <= k < vs.len() && 0 <= j < 8 implies #[trigger] array_value_bits(vs)[8 * k + j] == ((vs[k] as nat
                / exp2((7 - j) as nat)) % 2 == 1) by {
            if k < vs.len() - 1 {
                assert(array_value_bits(vs)[8 * k + j] == array_value_bits(front)[8 * k + j]);
                assert(vs[k] == front[k]);
            } else {
                lemma_byte_value_bits(vs.last(), j);
                assert(array_value_bits(vs)[8 * k + j] == byte_value_bits(vs.last())[j]);
            }
        }
    }
}

/// An array init value is written byte by byte from the signal's start
/// position, each byte most significant bit first, whatever the signal's byte
/// order: bit `j` of byte `k` is bit `7 - j` of the `k`-th value.
pub proof fn law_array_init_values_are_written_msb_first(bits: Seq<bool>, s: ISignal, vs: Seq<u64>, k: int, j: int)
    requires
        s.init_values matches InitValues::Array(a) && a@ == vs,
        forall|m: int| 0 <= m < vs.len() ==> vs[m] < 256,
        s.length == 8 * vs.len(),
        s.start_pos <= usize::MAX && s.length <= usize::MAX,
        s.start_pos + s.length <= bits.len(),
        0 <= k < vs.len(),
        0 <= j < 8,
    ensures
        !signal_fails(s),
        write_signal(bits, s).len() == bits.len(),
        write_signal(bits, s)[s.start_pos + 8 * k + j] == ((vs[k] as nat / exp2((7 - j) as nat)) % 2 == 1),
{
    reveal(signal_is_written);
    reveal(signal_fails);
    lemma_array_value_bits(vs);
    assert(signal_bits(s) == array_value_bits(vs));
    assert(signal_is_written(s));
    assert(write_signal(bits, s)[s.start_pos + 8 * k + j] == signal_bits(s)[8 * k + j]);
}

proof fn lemma_padded_bits(v: nat, len: nat, i: int)
    requires
        v < exp2(len),
        0 <= i < len,
    ensures
        pad_false(lsb_bits(v), len).len() == len,
        pad_false(lsb_bits(v), len)[i] == ((v / exp2(i as nat)) % 2 == 1),
{
    lemma_lsb_bits_short(v, len);
    if i < lsb_bits(v).len() {
        lemma_lsb_bits_index(v, i);
    } else {
        lemma_high_bits_zero(v, i as nat);
    }
}

/// A single init value is written into the signal's bits from its start
/// position: least significant bit first for a little-endian signal, most
/// significant bit first for a big-endian one.
pub proof fn law_single_init_values_follow_the_byte_order(bits: Seq<bool>, s: ISignal, v: u64, i: int)
    requires
        s.init_values == InitValues::Single(v),
        (v as nat) < exp2(s.length as nat),
        s.start_pos <= usize::MAX && s.length <= usize::MAX,
        s.start_pos + s.length <= bits.len(),
        0 <= i < s.length,
    ensures
        !signal_fails(s),
        write_signal(bits, s).len() == bits.len(),
        write_signal(bits, s)[s.start_pos + i] == if s.byte_order {
            (v as nat / exp2((s.length - 1 - i) as nat)) % 2 == 1
        } else {
            (v as nat / exp2(i as nat)) % 2 == 1
        },
{
    reveal(signal_is_written);
    reveal(signal_fails);
    let len = s.length as nat;
    lemma_padded_bits(v as nat, len, i);
    lemma_padded_bits(v as nat, len, len - 1 - i);
    assert(signal_bits(s).len() == s.length);
    assert(signal_is_written(s));
    assert(write_signal(bits, s)[s.start_pos + i] == signal_bits(s)[i]);
}

proof fn lemma_byte_bits(x0: u8, x1: u8, x2: u8, x3: u8, x4: u8, x5: u8, x6: u8, x7: u8)
    by (bit_vector)
    requires
        x0 <= 1 && x1 <= 1 && x2 <= 1 && x3 <= 1 && x4 <= 1 && x5 <= 1 && x6 <= 1 && x7 <= 1,
    ensures
        ({
            let b = (x0 * 128 + x1 * 64 + x2 * 32 + x3 * 16 + x4 * 8 + x5 * 4 + x6 * 2 + x7) as u8;
            &&& (b >> 7u8) & 1u8 == x0
            &&& (b >> 6u8) & 1u8 == x1
            &&& (b >> 5u8) & 1u8 == x2
            &&& (b >> 4u8) & 1u8 == x3
            &&& (b >> 3u8) & 1u8 == x4
            &&& (b >> 2u8) & 1u8 == x5
            &&& (b >> 1u8) & 1u8 == x6
            &&& (b >> 0u8) & 1u8 == x7
        }),
{
}

/// Bit `j` of `b`, counting from the least significant one.
pub open spec fn bit_at(b: u8, j: u8) -> bool {
    (b >> j) & 1u8 == 1u8
}

/// The initial payload of a PDU packs its bits eight to a byte, in order: in a
/// big-endian payload bit `8 * k + j` is bit `7 - j` of byte `k` (the first bit
/// is the most significant one), in a little-endian payload it is bit `j`.
pub proof fn law_payload_packs_the_bits_in_order(
    unused_bit_pattern: bool,
    ungrouped: Seq<ISignal>,
    grouped: Seq<ISignalGroup>,
    length: nat,
    big_endian: bool,
    k: int,
    j: int,
)
    requires
        0 <= k < pdu_init_bytes(unused_bit_pattern, ungrouped, grouped, length, big_endian).len(),
        0 <= j < 8,
    ensures
        pdu_bits(unused_bit_pattern, pdu_signals(ungrouped, grouped), length)[8 * k + j] == if big_endian {
            bit_at(pdu_init_bytes(unused_bit_pattern, ungrouped, grouped, length, big_endian)[k], (7 - j) as u8)
        } else {
            bit_at(pdu_init_bytes(unused_bit_pattern, ungrouped, grouped, length, big_endian)[k], j as u8)
        },
{
    let bits = pdu_bits(unused_bit_pattern, pdu_signals(ungrouped, grouped), length);
    let chunk = bits.subrange(8 * k, 8 * k + 8);
    let rev = chunk.reverse();
    lemma_bits8(chunk);
    lemma_bits8(rev);
    assert(rev[0] == chunk[7] && rev[1] == chunk[6] && rev[2] == chunk[5] && rev[3] == chunk[4]);
    assert(rev[4] == chunk[3] && rev[5] == chunk[2] && rev[6] == chunk[1] && rev[7] == chunk[0]);
    assert(bits[8 * k + j] == chunk[j]);
    let byte = pdu_init_bytes(unused_bit_pattern, ungrouped, grouped, length, big_endian)[k];
    if big_endian {
        assert(byte == (bit_of(chunk[0]) * 128 + bit_of(chunk[1]) * 64 + bit_of(chunk[2]) * 32 + bit_of(chunk[3]) * 16
            + bit_of(chunk[4]) * 8 + bit_of(chunk[5]) * 4 + bit_of(chunk[6]) * 2 + bit_of(chunk[7])) as u8);
    } else {
        assert(byte == (bit_of(chunk[7]) * 128 + bit_of(chunk[6]) * 64 + bit_of(chunk[5]) * 32 + bit_of(chunk[4]) * 16
            + bit_of(chunk[3]) * 8 + bit_of(chunk[2]) * 4 + bit_of(chunk[1]) * 2 + bit_of(chunk[0])) as u8);
    }
    if big_endian {
        lemma_byte_bits(
            bit_of(chunk[0]),
            bit_of(chunk[1]),
            bit_of(chunk[2]),
            bit_of(chunk[3]),
            bit_of(chunk[4]),
            bit_of(chunk[5]),
            bit_of(chunk[6]),
            bit_of(chunk[7]),
        );
    } else {
        lemma_byte_bits(
            bit_of(chunk[7]),
            bit_of(chunk[6]),
            bit_of(chunk[5]),
            bit_of(chunk[4]),
            bit_of(chunk[3]),
            bit_of(chunk[2]),
            bit_of(chunk[1]),
            bit_of(chunk[0]),
        );
    }
    if j == 0 {
        if big_endian {
            assert(bit_at(byte, 7u8) == chunk[0]);
        } else {
            assert(bit_at(byte, 0u8) == chunk[0]);
        }
    }
    if j == 1 {
        if big_endian {
            assert(bit_at(byte, 6u8) == chunk[1]);
        } else {
            assert(bit_at(byte, 1u8) == chunk[1]);
        }
    }
    if j == 2 {
        if big_endian {
            assert(bit_at(byte, 5u8) == chunk[2]);
        } else {
            assert(bit_at(byte, 2u8) == chunk[2]);
        }
    }
    if j == 3 {
        if big_endian {
            assert(bit_at(byte, 4u8) == chunk[3]);
        } else {
            assert(bit_at(byte, 3u8) == chunk[3]);
        }
    }
    if j == 4 {
        if big_endian {
            assert(bit_at(byte, 3u8) == chunk[4]);
        } else {
            assert(bit_at(byte, 4u8) == chunk[4]);
        }
    }
    if j == 5 {
        if big_endian {
            assert(bit_at(byte, 2u8) == chunk[5]);
        } else {
            assert(bit_at(byte, 5u8) == chunk[5]);
        }
    }
    if j == 6 {
        if big_endian {
            assert(bit_at(byte, 1u8) == chunk[6]);
        } else {
            assert(bit_at(byte, 6u8) == chunk[6]);
        }
    }
    if j == 7 {
        if big_endian {
            assert(bit_at(byte, 0u8) == chunk[7]);
        } else {
            assert(bit_at(byte, 7u8) == chunk[7]);
        }
    }
}

proof fn lemma_uncovered_bit(bits: Seq<bool>, sigs: Seq<ISignal>, i: int)
    requires
        0 <= i < bits.len(),
        forall|k: int|
            0 <= k < sigs.len() ==> !(#[trigger] sigs[k].start_pos <= i < sigs[k].start_pos + sigs[k].length),
    ensures
        write_signals(bits, sigs).len() == bits.len(),
        write_signals(bits, sigs)[i] == bits[i],
    decreases sigs.len(),
{
    if sigs.len() > 0 {
        let front = sigs.drop_last();
        assert forall|k: int| 0 <= k < front.len() implies !(#[trigger] front[k].start_pos <= i < front[k].start_pos
            + front[k].length) by {
            assert(front[k] == sigs[k]);
        }
        lemma_uncovered_bit(bits, front, i);
        assert(sigs[sigs.len() - 1] == sigs.last());
    }
}

/// The payload starts with every bit set to the unused bit pattern, and the
/// signals' init values are written over it: a bit that no signal covers keeps
/// the unused bit pattern.
pub proof fn law_uncovered_bits_keep_the_unused_pattern(
    unused_bit_pattern: bool,
    sigs: Seq<ISignal>,
    length: nat,
    i: int,
)
    requires
        0 <= i < length * 8,
        forall|k: int|
            0 <= k < sigs.len() ==> !(#[trigger] sigs[k].start_pos <= i < sigs[k].start_pos + sigs[k].length),
    ensures
        pdu_bits(unused_bit_pattern, sigs, length).len() == length * 8,
        pdu_bits(unused_bit_pattern, sigs, length)[i] == unused_bit_pattern,
{
    lemma_uncovered_bit(Seq::new(length * 8, |b: int| unused_bit_pattern), sigs, i);
}

} // verus!
