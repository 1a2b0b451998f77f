//! Binary artifact codecs.
//!
//! A trace file is the concatenation of 24-byte records: `ap`, `fp`, `pc`
//! of each step, each as 8 little-endian bytes.  A memory file is the
//! concatenation of 40-byte records — an 8-byte little-endian address and
//! a 32-byte little-endian value — for the present cells only, in
//! ascending address order: a sparse index/value stream, not a dense
//! array.

use vstd::prelude::*;
use crate::felt::{felt_from_bytes_le, felt_to_bytes_le, felt_val, stark_prime};
use crate::nums::{
    le_bytes, le_val, pow256, lemma_le_bytes_len, lemma_le_val_of_le_bytes, lemma_pow256_8,
    lemma_pow256_le,
};
use cairo_vm::Felt252;
use vstd::slice::slice_subrange;

verus! {

/// VM register state at one execution step.
#[derive(Clone, Copy, PartialEq, Eq, Structural, Debug)]
pub struct TraceEntry {
    pub ap: u64,
    pub fp: u64,
    pub pc: u64,
}

/// The byte stream does not divide into whole records.
#[derive(Clone, Copy, PartialEq, Eq, Structural, Debug)]
pub enum CodecError {
    Framing,
}

/// The 24 bytes of one trace record.
pub open spec fn entry_bytes(e: TraceEntry) -> Seq<u8> {
    le_bytes(e.ap as nat, 8) + le_bytes(e.fp as nat, 8) + le_bytes(e.pc as nat, 8)
}

/// The encoding of a whole trace, in execution order.
pub open spec fn trace_bytes(es: Seq<TraceEntry>) -> Seq<u8>
    decreases es.len(),
{
    if es.len() == 0 {
        Seq::empty()
    } else {
        entry_bytes(es[0]) + trace_bytes(es.skip(1))
    }
}

/// The trace read back from a byte stream, record by 24-byte record.
pub open spec fn spec_decode_trace(b: Seq<u8>) -> Seq<TraceEntry>
    decreases b.len(),
{
    if b.len() < 24 {
        Seq::empty()
    } else {
        seq![
            TraceEntry {
                ap: le_val(b.subrange(0, 8)) as u64,
                fp: le_val(b.subrange(8, 16)) as u64,
                pc: le_val(b.subrange(16, 24)) as u64,
            },
        ] + spec_decode_trace(b.skip(24))
    }
}

/// The 40 bytes of one memory record.
pub open spec fn cell_bytes(addr: nat, f: Felt252) -> Seq<u8> {
    le_bytes(addr, 8) + le_bytes(felt_val(f), 32)
}

/// The sparse encoding of a memory array whose first cell sits at `addr`:
/// absent cells contribute no bytes and only advance the address.
pub open spec fn memory_bytes_from(cells: Seq<Option<Felt252>>, addr: nat) -> Seq<u8>
    decreases cells.len(),
{
    if cells.len() == 0 {
        Seq::empty()
    } else {
        match cells[0] {
            None => memory_bytes_from(cells.skip(1), addr + 1),
            Some(f) => cell_bytes(addr, f) + memory_bytes_from(cells.skip(1), addr + 1),
        }
    }
}

pub open spec fn memory_bytes(cells: Seq<Option<Felt252>>) -> Seq<u8> {
    memory_bytes_from(cells, 0)
}

/// The (address, value) pairs read back from a byte stream, record by
/// 40-byte record; values are reduced modulo the field prime.
pub open spec fn spec_decode_memory(b: Seq<u8>) -> Seq<(nat, nat)>
    decreases b.len(),
{
    if b.len() < 40 {
        Seq::empty()
    } else {
        seq![(le_val(b.subrange(0, 8)), le_val(b.subrange(8, 40)) % stark_prime())]
            + spec_decode_memory(b.skip(40))
    }
}

/// The (address, value) pairs of the present cells, in ascending address
/// order, with the first cell of the array at `addr`.
pub open spec fn present_pairs_from(cells: Seq<Option<Felt252>>, addr: nat) -> Seq<(nat, nat)>
    decreases cells.len(),
{
    if cells.len() == 0 {
        Seq::empty()
    } else {
        match cells[0] {
            None => present_pairs_from(cells.skip(1), addr + 1),
            Some(f) => seq![(addr, felt_val(f))] + present_pairs_from(cells.skip(1), addr + 1),
        }
    }
}

pub open spec fn present_pairs(cells: Seq<Option<Felt252>>) -> Seq<(nat, nat)> {
    present_pairs_from(cells, 0)
}

/// Appends the 8 little-endian bytes of `v`.
fn push_u64_le(out: &mut Vec<u8>, v: u64)
    ensures
        final(out)@ == old(out)@ + le_bytes(v as nat, 8),
{
    let ghost base = out@;
    let mut x = v;
    let mut k: usize = 0;
    while k < 8
        invariant
            0 <= k <= 8,
            out@.len() == base.len() + k,
            out@.take(base.len() as int) == base,
            le_bytes(v as nat, 8) =~= out@.skip(base.len() as int) + le_bytes(
                x as nat,
                (8 - k) as nat,
            ),
        decreases 8 - k,
    {
        let b = (x % 256) as u8;
        out.push(b);
        proof {
            assert(le_bytes(x as nat, (8 - k) as nat) =~= seq![b] + le_bytes(
                (x / 256) as nat,
                (8 - k - 1) as nat,
            ));
            assert(out@.skip(base.len() as int) =~= out@.skip(base.len() as int).take(k as int)
                + seq![b]);
        }
        x = x / 256;
        k = k + 1;
    }
    proof {
        assert(out@ =~= base + out@.skip(base.len() as int));
    }
}

/// Reads the 8 little-endian bytes at `off` as a `u64`.
fn read_u64_le(b: &[u8], off: usize) -> (v: u64)
    requires
        off + 8 <= b@.len(),
    ensures
        v as nat == le_val(b@.subrange(off as int, off + 8)),
{
    let n = b.len();
    proof {
        assert(n == b@.len());
    }
    let mut v: u64 = 0;
    let mut k: usize = 8;
    while k > 0
        invariant
            0 <= k <= 8,
            off + 8 <= b@.len(),
            b@.len() <= usize::MAX,
            v as nat == le_val(b@.subrange(off + k, off + 8)),
            v < pow256((8 - k) as nat),
        decreases k,
    {
        k = k - 1;
        let ghost tail = b@.subrange(off + k + 1, off + 8);
        let ghost whole = b@.subrange(off + k, off + 8);
        proof {
            assert(whole.skip(1) =~= tail);
            assert(le_val(whole) == whole[0] + 256 * le_val(tail));
            lemma_pow256_8();
            lemma_pow256_le((8 - k - 1) as nat, 7);
            assert(v * 256 + 255 < pow256((8 - k) as nat)) by (nonlinear_arith)
                requires
                    v < pow256((8 - k - 1) as nat),
                    pow256((8 - k) as nat) == 256 * pow256((8 - k - 1) as nat),
            ;
            lemma_pow256_le((8 - k) as nat, 8);
        }
        v = v * 256 + (b[off + k] as u64);
    }
    proof {
        assert(b@.subrange(off + 0, off + 8) =~= b@.subrange(off as int, off + 8));
    }
    v
}

proof fn lemma_trace_bytes_push(es: Seq<TraceEntry>, e: TraceEntry)
    ensures
        trace_bytes(es.push(e)) == trace_bytes(es) + entry_bytes(e),
    decreases es.len(),
{
    if es.len() == 0 {
        assert(es.push(e)[0] == e);
        assert(es.push(e).skip(1) =~= Seq::<TraceEntry>::empty());
        assert(trace_bytes(es.push(e)) == entry_bytes(e) + trace_bytes(
            Seq::<TraceEntry>::empty(),
        ));
        assert(trace_bytes(es.push(e)) =~= entry_bytes(e));
        assert(trace_bytes(es) + entry_bytes(e) =~= entry_bytes(e));
    } else {
        assert(es.push(e).skip(1) =~= es.skip(1).push(e));
        lemma_trace_bytes_push(es.skip(1), e);
        assert(trace_bytes(es.push(e)) =~= trace_bytes(es) + entry_bytes(e));
    }
}

/// Emits the 24-byte records of the trace, in execution order.
pub fn encode_trace(relocated_trace: &[TraceEntry]) -> (r: Vec<u8>)
    ensures
        r@ == trace_bytes(relocated_trace@),
{
    let mut r: Vec<u8> = Vec::new();
    let mut i: usize = 0;
    while i < relocated_trace.len()
        invariant
            0 <= i <= relocated_trace@.len(),
            r@ == trace_bytes(relocated_trace@.take(i as int)),
        decreases relocated_trace@.len() - i,
    {
        let e = relocated_trace[i];
        push_u64_le(&mut r, e.ap);
        push_u64_le(&mut r, e.fp);
        push_u64_le(&mut r, e.pc);
        proof {
            lemma_trace_bytes_push(relocated_trace@.take(i as int), e);
            assert(relocated_trace@.take(i + 1) =~= relocated_trace@.take(i as int).push(e));
        }
        i = i + 1;
    }
    proof {
        assert(relocated_trace@.take(relocated_trace@.len() as int) =~= relocated_trace@);
    }
    r
}

/// Reads a trace back, by whole 24-byte records; a trailing partial
/// record is a framing error.
pub fn decode_trace(b: &[u8]) -> (r: Result<Vec<TraceEntry>, CodecError>)
    ensures
        r matches Ok(es) ==> b@.len() % 24 == 0 && es@ == spec_decode_trace(b@),
        r is Err <==> b@.len() % 24 != 0,
{
    if b.len() % 24 != 0 {
        return Err(CodecError::Framing);
    }
    let mut es: Vec<TraceEntry> = Vec::new();
    let mut off: usize = 0;
    proof {
        assert(b@.skip(0) =~= b@);
        assert(Seq::<TraceEntry>::empty() + spec_decode_trace(b@) =~= spec_decode_trace(b@));
    }
    while off < b.len()
        invariant
            0 <= off <= b@.len(),
            off % 24 == 0,
            b@.len() % 24 == 0,
            spec_decode_trace(b@) == es@ + spec_decode_trace(b@.skip(off as int)),
        decreases b@.len() - off,
    {
        proof {
            assert(off + 24 <= b@.len());
        }
        let ap = read_u64_le(b, off);
        let fp = read_u64_le(b, off + 8);
        let pc = read_u64_le(b, off + 16);
        let e = TraceEntry { ap, fp, pc };
        let ghost rest = b@.skip(off as int);
        proof {
            assert(rest.subrange(0, 8) =~= b@.subrange(off as int, off + 8));
            assert(rest.subrange(8, 16) =~= b@.subrange(off + 8, off + 16));
            assert(rest.subrange(16, 24) =~= b@.subrange(off + 16, off + 24));
            assert(rest.skip(24) =~= b@.skip(off + 24));
            assert(spec_decode_trace(rest) == seq![e] + spec_decode_trace(b@.skip(off + 24)));
            assert(es@.push(e) + spec_decode_trace(b@.skip(off + 24)) =~= es@ + spec_decode_trace(
                rest,
            ));
        }
        es.push(e);
        off = off + 24;
    }
    proof {
        assert(b@.skip(b@.len() as int) =~= Seq::<u8>::empty());
        assert(es@ + spec_decode_trace(b@.skip(off as int)) =~= es@);
    }
    Ok(es)
}

proof fn lemma_memory_bytes_push(cells: Seq<Option<Felt252>>, c: Option<Felt252>, addr: nat)
    ensures
        memory_bytes_from(cells.push(c), addr) == memory_bytes_from(cells, addr) + (match c {
            None => Seq::<u8>::empty(),
            Some(f) => cell_bytes(addr + cells.len(), f),
        }),
    decreases cells.len(),
{
    let tail = (match c {
        None => Seq::<u8>::empty(),
        Some(f) => cell_bytes(addr + cells.len(), f),
    });
    if cells.len() == 0 {
        assert(cells.push(c)[0] == c);
        assert(cells.push(c).skip(1) =~= Seq::<Option<Felt252>>::empty());
        assert(memory_bytes_from(Seq::<Option<Felt252>>::empty(), addr + 1)
            == Seq::<u8>::empty());
        assert(memory_bytes_from(cells.push(c), addr) =~= memory_bytes_from(cells, addr) + tail);
    } else {
        assert(cells.push(c).skip(1) =~= cells.skip(1).push(c));
        lemma_memory_bytes_push(cells.skip(1), c, addr + 1);
        assert(memory_bytes_from(cells.push(c), addr) =~= memory_bytes_from(cells, addr) + tail);
    }
}

/// Emits the sparse 40-byte records of the present cells, in ascending
/// address order; absent cells contribute no bytes.
pub fn encode_memory(relocated_memory: &[Option<Felt252>]) -> (r: Vec<u8>)
    ensures
        r@ == memory_bytes(relocated_memory@),
{
    let mut r: Vec<u8> = Vec::new();
    let mut i: usize = 0;
    while i < relocated_memory.len()
        invariant
            0 <= i <= relocated_memory@.len(),
            r@ == memory_bytes_from(relocated_memory@.take(i as int), 0),
        decreases relocated_memory@.len() - i,
    {
        proof {
            lemma_memory_bytes_push(
                relocated_memory@.take(i as int),
                relocated_memory@[i as int],
                0,
            );
            assert(relocated_memory@.take(i + 1) =~= relocated_memory@.take(i as int).push(
                relocated_memory@[i as int],
            ));
        }
        match &relocated_memory[i] {
            None => {},
            Some(f) => {
                push_u64_le(&mut r, i as u64);
                let mut fb = felt_to_bytes_le(f);
                proof {
                    lemma_le_bytes_len(felt_val(relocated_memory@[i as int].unwrap()), 32);
                }
                r.append(&mut fb);
            },
        }
        i = i + 1;
    }
    proof {
        assert(relocated_memory@.take(relocated_memory@.len() as int) =~= relocated_memory@);
    }
    r
}

/// Reads a memory stream back, by whole 40-byte records; a trailing
/// partial record is a framing error.
pub fn decode_memory(b: &[u8]) -> (r: Result<Vec<(u64, Felt252)>, CodecError>)
    ensures
        r matches Ok(ps) ==> b@.len() % 40 == 0 && ps@.map(
            |i: int, p: (u64, Felt252)| (p.0 as nat, felt_val(p.1)),
        ) =~= spec_decode_memory(b@),
        r is Err <==> b@.len() % 40 != 0,
{
    if b.len() % 40 != 0 {
        return Err(CodecError::Framing);
    }
    let mut ps: Vec<(u64, Felt252)> = Vec::new();
    let mut off: usize = 0;
    proof {
        assert(b@.skip(0) =~= b@);
        assert(Seq::<(nat, nat)>::empty() + spec_decode_memory(b@) =~= spec_decode_memory(b@));
    }
    while off < b.len()
        invariant
            0 <= off <= b@.len(),
            off % 40 == 0,
            b@.len() % 40 == 0,
            spec_decode_memory(b@) =~= ps@.map(
                |i: int, p: (u64, Felt252)| (p.0 as nat, felt_val(p.1)),
            ) + spec_decode_memory(b@.skip(off as int)),
        decreases b@.len() - off,
    {
        proof {
            assert(off + 40 <= b@.len());
        }
        let addr = read_u64_le(b, off);
        let value = felt_from_bytes_le(slice_subrange(b, off + 8, off + 40));
        let ghost rest = b@.skip(off as int);
        proof {
            assert(rest.subrange(0, 8) =~= b@.subrange(off as int, off + 8));
            assert(rest.subrange(8, 40) =~= b@.subrange(off + 8, off + 40));
            assert(rest.skip(40) =~= b@.skip(off + 40));
            assert(spec_decode_memory(rest) == seq![(addr as nat, felt_val(value))]
                + spec_decode_memory(b@.skip(off + 40)));
            assert(ps@.push((addr, value)).map(
                |i: int, p: (u64, Felt252)| (p.0 as nat, felt_val(p.1)),
            ) =~= ps@.map(|i: int, p: (u64, Felt252)| (p.0 as nat, felt_val(p.1))).push(
                (addr as nat, felt_val(value)),
            ));
        }
        ps.push((addr, value));
        off = off + 40;
    }
    proof {
        assert(b@.skip(b@.len() as int) =~= Seq::<u8>::empty());
    }
    Ok(ps)
}

/// Law: decoding an encoded trace by 24-byte records reproduces the
/// original sequence exactly, for any sequence including the empty one.
pub proof fn lemma_trace_round_trip(es: Seq<TraceEntry>)
    ensures
        trace_bytes(es).len() == 24 * es.len(),
        trace_bytes(es).len() % 24 == 0,
        spec_decode_trace(trace_bytes(es)) == es,
    decreases es.len(),
{
    lemma_pow256_8();
    if es.len() == 0 {
    } else {
        let e = es[0];
        let head = entry_bytes(e);
        let b = trace_bytes(es);
        lemma_le_bytes_len(e.ap as nat, 8);
        lemma_le_bytes_len(e.fp as nat, 8);
        lemma_le_bytes_len(e.pc as nat, 8);
        lemma_trace_round_trip(es.skip(1));
        assert(b =~= head + trace_bytes(es.skip(1)));
        assert(b.subrange(0, 8) =~= le_bytes(e.ap as nat, 8));
        assert(b.subrange(8, 16) =~= le_bytes(e.fp as nat, 8));
        assert(b.subrange(16, 24) =~= le_bytes(e.pc as nat, 8));
        lemma_le_val_of_le_bytes(e.ap as nat, 8);
        lemma_le_val_of_le_bytes(e.fp as nat, 8);
        lemma_le_val_of_le_bytes(e.pc as nat, 8);
        assert(b.skip(24) =~= trace_bytes(es.skip(1)));
        assert(spec_decode_trace(b) =~= es);
    }
}

/// Law: decoding an encoded memory array by 40-byte records reproduces
/// exactly the (address, value) pairs of the present cells, in ascending
/// address order — an all-absent array encodes to the empty stream.
pub proof fn lemma_memory_round_trip(cells: Seq<Option<Felt252>>)
    requires
        cells.len() <= 0xffff_ffff_ffff_ffff,
        forall|i: int|
            0 <= i < cells.len() && cells[i] is Some ==> felt_val(
                (#[trigger] cells[i]).unwrap(),
            ) < stark_prime(),
    ensures
        spec_decode_memory(memory_bytes(cells)) == present_pairs(cells),
{
    lemma_memory_round_trip_from(cells, 0);
}

proof fn lemma_memory_round_trip_from(cells: Seq<Option<Felt252>>, addr: nat)
    requires
        addr + cells.len() <= 0x1_0000_0000_0000_0000,
        forall|i: int|
            0 <= i < cells.len() && cells[i] is Some ==> felt_val(
                (#[trigger] cells[i]).unwrap(),
            ) < stark_prime(),
    ensures
        spec_decode_memory(memory_bytes_from(cells, addr)) == present_pairs_from(cells, addr),
    decreases cells.len(),
{
    lemma_pow256_8();
    if cells.len() == 0 {
    } else {
        assert(forall|i: int|
            0 <= i < cells.skip(1).len() && cells.skip(1)[i] is Some ==> felt_val(
                (#[trigger] cells.skip(1)[i]).unwrap(),
            ) < stark_prime());
        lemma_memory_round_trip_from(cells.skip(1), addr + 1);
        match cells[0] {
            None => {},
            Some(f) => {
                let head = cell_bytes(addr, f);
                let b = memory_bytes_from(cells, addr);
                lemma_le_bytes_len(addr, 8);
                lemma_le_bytes_len(felt_val(f), 32);
                assert(b =~= head + memory_bytes_from(cells.skip(1), addr + 1));
                assert(b.subrange(0, 8) =~= le_bytes(addr, 8));
                assert(b.subrange(8, 40) =~= le_bytes(felt_val(f), 32));
                lemma_le_val_of_le_bytes(addr, 8);
                crate::nums::lemma_pow256_32();
                lemma_le_val_of_le_bytes(felt_val(f), 32);
                assert(le_val(b.subrange(8, 40)) % stark_prime() == felt_val(f));
                assert(b.skip(40) =~= memory_bytes_from(cells.skip(1), addr + 1));
                assert(spec_decode_memory(b) =~= present_pairs_from(cells, addr));
            },
        }
    }
}

} // verus!
