use vstd::prelude::*;

use crate::digest::{sha1_digest, sha1_of};
use crate::errors::GitError;
use crate::hexcode::{hex_encode, hex_of};
use crate::object::{dec_bytes, object_stream, push_bytes};
use crate::util::{parse_size, vlq4_parse, vlq7_parse};

verus! {

/// The kind of one pack record: a base object kind, or a delta against a
/// base named by offset or by identity.
#[derive(Debug, Clone, Copy, PartialEq, Eq, Structural)]
pub enum PackedObjectType {
    Commit,
    Tree,
    Blob,
    Tag,
    OfsDelta,
    RefDelta,
}

/// The kind encoded by the three type bits of a record's first byte, if
/// the code is one this format defines.
pub open spec fn kind_of_code(t: nat) -> Option<PackedObjectType> {
    if t == 1 {
        Some(PackedObjectType::Commit)
    } else if t == 2 {
        Some(PackedObjectType::Tree)
    } else if t == 3 {
        Some(PackedObjectType::Blob)
    } else if t == 4 {
        Some(PackedObjectType::Tag)
    } else if t == 6 {
        Some(PackedObjectType::OfsDelta)
    } else if t == 7 {
        Some(PackedObjectType::RefDelta)
    } else {
        None
    }
}

/// Meaning of a record header: the three bits below the continuation bit
/// name the kind, and the size comes from the four-bit variable-length
/// integer over the whole stream.
pub open spec fn pack_header_parse(s: Seq<u8>) -> Option<(nat, PackedObjectType, nat)> {
    if s.len() == 0 {
        None
    } else {
        match kind_of_code(((s[0] / 16) % 8) as nat) {
            None => None,
            Some(k) => match vlq4_parse(s) {
                None => None,
                Some(cv) => Some((cv.0, k, cv.1)),
            },
        }
    }
}

/// Parse one record header: the kind and the uncompressed size, with the
/// count of bytes consumed.
///
/// Fails with `TruncatedVarint` when the size runs off the end, and with
/// `PackCorrupt` on an undefined kind code or an out-of-range size.
pub fn parse_header(input: &[u8]) -> (r: Result<(usize, (PackedObjectType, usize)), GitError>)
    ensures
        r matches Ok(p) ==> pack_header_parse(input@) == Some(
            (p.0 as nat, p.1.0, p.1.1 as nat),
        ),
        r is Ok <==> (pack_header_parse(input@) matches Some(q) && q.0 <= 9 && q.2 <= usize::MAX),
        r is Err ==> r == Err::<(usize, (PackedObjectType, usize)), GitError>(
            GitError::TruncatedVarint,
        ) || r == Err::<(usize, (PackedObjectType, usize)), GitError>(GitError::PackCorrupt),
{
    if input.len() == 0 {
        return Err(GitError::TruncatedVarint);
    }
    let b0 = input[0];
    let code = (b0 / 16) % 8;
    let kind = if code == 1 {
        PackedObjectType::Commit
    } else if code == 2 {
        PackedObjectType::Tree
    } else if code == 3 {
        PackedObjectType::Blob
    } else if code == 4 {
        PackedObjectType::Tag
    } else if code == 6 {
        PackedObjectType::OfsDelta
    } else if code == 7 {
        PackedObjectType::RefDelta
    } else {
        return Err(GitError::PackCorrupt);
    };
    match parse_size(input) {
        Result::Ok(cv) => Ok((cv.0, (kind, cv.1))),
        Result::Err(e) => Err(e),
    }
}

/// Meaning of the big-endian offset encoding of an offset delta: seven
/// bits per byte, most significant first, and each continuation step adds
/// one before shifting.  `acc` carries the value of the bytes already
/// taken.
pub open spec fn vlq_be_parse(s: Seq<u8>, acc: nat) -> Option<(nat, nat)>
    decreases s.len(),
{
    if s.len() == 0 {
        None
    } else {
        let x = (acc + (s[0] % 128)) as nat;
        if s[0] < 128 {
            Some((1nat, x))
        } else {
            match vlq_be_parse(s.skip(1), (x + 1) * 128) {
                None => None,
                Some(cv) => Some(((cv.0 + 1) as nat, cv.1)),
            }
        }
    }
}

/// The largest accumulator reachable after `i` continuation steps.
pub open spec fn vlq_be_bound(i: nat) -> nat
    decreases i,
{
    if i == 0 {
        0
    } else {
        (vlq_be_bound((i - 1) as nat) + 128) * 128
    }
}

proof fn lemma_vlq_be_bound_values()
    ensures
        vlq_be_bound(7) == 0x102040810204000,
        vlq_be_bound(8) == 0x8102040810204000,
        vlq_be_bound(0) == 0,
{
    assert(vlq_be_bound(0) == 0);
    assert(vlq_be_bound(1) == 0x4000);
    assert(vlq_be_bound(2) == 0x204000);
    assert(vlq_be_bound(3) == 0x10204000);
    assert(vlq_be_bound(4) == 0x0810204000);
    assert(vlq_be_bound(5) == 0x040810204000);
    assert(vlq_be_bound(6) == 0x02040810204000);
    assert(vlq_be_bound(7) == 0x0102040810204000);
    assert(vlq_be_bound(8) == 0x8102040810204000);
}

/// The big-endian offset parse fails exactly when the input ends before
/// the continuation bit clears, whatever value the taken bytes carried.
proof fn lemma_vlq_be_none_iff(s: Seq<u8>, acc: nat)
    ensures
        vlq_be_parse(s, acc) is None <==> crate::util::all_continuation(s, s.len() as int),
    decreases s.len(),
{
    if s.len() != 0 && s[0] >= 128 {
        let acc2 = ((acc + (s[0] % 128) + 1) * 128) as nat;
        lemma_vlq_be_none_iff(s.skip(1), acc2);
        if vlq_be_parse(s, acc) is None {
            assert forall|j: int| 0 <= j < s.len() implies #[trigger] s[j] >= 128 by {
                if j > 0 {
                    assert(s.skip(1)[j - 1] == s[j]);
                }
            }
        }
        if crate::util::all_continuation(s, s.len() as int) {
            assert forall|j: int| 0 <= j < s.len() - 1 implies #[trigger] s.skip(1)[j] >= 128 by {
                assert(s.skip(1)[j] == s[j + 1]);
            }
        }
    }
}

/// What the offset parse consumes ends at the first byte whose
/// continuation bit is clear.
proof fn lemma_vlq_be_consumed_char(s: Seq<u8>, acc: nat)
    ensures
        vlq_be_parse(s, acc) matches Some(cv) ==> 1 <= cv.0 <= s.len() && s[cv.0 - 1] < 128
            && crate::util::all_continuation(s, cv.0 - 1),
    decreases s.len(),
{
    if s.len() != 0 && s[0] >= 128 {
        let acc2 = ((acc + (s[0] % 128) + 1) * 128) as nat;
        lemma_vlq_be_consumed_char(s.skip(1), acc2);
        match vlq_be_parse(s.skip(1), acc2) {
            None => {},
            Some(cv) => {
                assert(s.skip(1)[cv.0 - 1] == s[cv.0 as int]);
                assert forall|j: int| 0 <= j < cv.0 implies #[trigger] s[j] >= 128 by {
                    if j > 0 {
                        assert(s.skip(1)[j - 1] == s[j]);
                    }
                }
            },
        }
    }
}

/// Parse the big-endian continuation-encoded offset of an offset delta.
///
/// Fails with `TruncatedVarint` exactly when the input ends before the
/// continuation bit clears, however long it runs, and with `PackCorrupt`
/// when a terminated encoding runs past eight bytes or its value does not
/// fit the machine.
pub fn read_ofs_offset(input: &[u8]) -> (r: Result<(usize, usize), GitError>)
    ensures
        r matches Ok(cv) ==> vlq_be_parse(input@, 0) == Some((cv.0 as nat, cv.1 as nat)),
        r is Ok <==> (vlq_be_parse(input@, 0) matches Some(cv) && cv.0 <= 8 && cv.1 <= usize::MAX),
        r is Err ==> r == Err::<(usize, usize), GitError>(GitError::TruncatedVarint) || r
            == Err::<(usize, usize), GitError>(GitError::PackCorrupt),
        r == Err::<(usize, usize), GitError>(GitError::TruncatedVarint) <==> vlq_be_parse(
            input@,
            0,
        ) is None,
{
    let mut i: usize = 0;
    let mut acc: u64 = 0;
    proof {
        lemma_vlq_be_bound_values();
        assert(input@.skip(0) =~= input@);
    }
    loop
        invariant
            0 <= i <= 8,
            i <= input@.len(),
            crate::util::all_continuation(input@, i as int),
            acc <= vlq_be_bound(i as nat),
            vlq_be_bound(i as nat) <= 0x8102040810204000,
            (match vlq_be_parse(input@.skip(i as int), acc as nat) {
                None => vlq_be_parse(input@, 0) is None,
                Some(cv) => vlq_be_parse(input@, 0) == Some(((i + cv.0) as nat, cv.1)),
            }),
        decreases input@.len() - i,
    {
        proof {
            lemma_vlq_be_bound_values();
        }
        if i >= input.len() {
            proof {
                lemma_vlq_be_none_iff(input@, 0);
            }
            return Err(GitError::TruncatedVarint);
        }
        if i >= 8 {
            // Over-long: still truncation when the stream never clears
            // the continuation bit, otherwise out of range.
            let mut j = i;
            while j < input.len()
                invariant
                    i <= j <= input@.len(),
                    i >= 8,
                    crate::util::all_continuation(input@, j as int),
                decreases input@.len() - j,
            {
                if input[j] < 128 {
                    proof {
                        lemma_vlq_be_none_iff(input@, 0);
                        lemma_vlq_be_consumed_char(input@, 0);
                        match vlq_be_parse(input@, 0) {
                            None => {
                                assert(input@[j as int] >= 128);
                            },
                            Some(cv) => {
                                if cv.0 <= 8 {
                                    assert(input@[cv.0 - 1] >= 128);
                                }
                            },
                        }
                    }
                    return Err(GitError::PackCorrupt);
                }
                j = j + 1;
            }
            proof {
                lemma_vlq_be_none_iff(input@, 0);
            }
            return Err(GitError::TruncatedVarint);
        }
        let b = input[i];
        let low = b % 128;
        proof {
            let rest = input@.skip(i as int);
            assert(rest[0] == input@[i as int]);
            assert(rest.skip(1) =~= input@.skip(i as int + 1));
            lemma_vlq_be_bound_mono(i as nat);
            lemma_vlq_be_bound_step(i as nat, 7nat);
        }
        if b < 128 {
            let v = acc + (low as u64);
            if v > (usize::MAX as u64) {
                return Err(GitError::PackCorrupt);
            }
            return Ok((i + 1, v as usize));
        }
        acc = (acc + (low as u64) + 1) * 128;
        i = i + 1;
    }
}

/// Each continuation step keeps the accumulator under the next bound.
proof fn lemma_vlq_be_bound_mono(i: nat)
    requires
        i < 8,
    ensures
        vlq_be_bound(i + 1) == (vlq_be_bound(i) + 128) * 128,
        vlq_be_bound(i + 1) <= 0x8102040810204000,
{
    lemma_vlq_be_bound_values();
    lemma_vlq_be_bound_step(i + 1, 8);
}

/// The bound grows with the step count.
proof fn lemma_vlq_be_bound_step(i: nat, j: nat)
    requires
        i <= j,
    ensures
        vlq_be_bound(i) <= vlq_be_bound(j),
    decreases j,
{
    if j > 0 && i < j {
        lemma_vlq_be_bound_step(i, (j - 1) as nat);
        assert(vlq_be_bound(j) == (vlq_be_bound((j - 1) as nat) + 128) * 128);
    }
}

/// Bit `i` of `m`.
pub open spec fn bit_at(m: u8, i: nat) -> bool
    decreases i,
{
    if i == 0 {
        m % 2 == 1
    } else {
        bit_at(m / 2, (i - 1) as nat)
    }
}

/// How many of the bits below `i` are set in `m`.
pub open spec fn bits_before(m: u8, i: nat) -> nat
    decreases i,
{
    if i == 0 {
        0
    } else {
        bits_before(m, (i - 1) as nat) + (if bit_at(m, (i - 1) as nat) {
            1nat
        } else {
            0nat
        })
    }
}

/// The value of the field byte selected by bit `i` of the mask, in the
/// little-endian order the mask lays down; an absent byte is zero.
pub open spec fn field_byte(s: Seq<u8>, m: u8, i: nat) -> u8 {
    if bit_at(m, i) {
        s[1 + bits_before(m, i) as int]
    } else {
        0
    }
}

/// One instruction of a delta stream.
#[derive(Debug, Clone, PartialEq, Eq)]
pub enum PatchInstruction {
    Copy { offset: usize, size: usize },
    Add { data: Vec<u8> },
}

/// The mathematical value of a delta instruction.  A copy keeps the raw
/// size field; a raw size of zero means 65536 bytes at application time.
pub ghost enum PatchInstructionV {
    Copy { offset: nat, size: nat },
    Add { data: Seq<u8> },
}

impl View for PatchInstruction {
    type V = PatchInstructionV;

    open spec fn view(&self) -> PatchInstructionV {
        match self {
            PatchInstruction::Copy { offset, size } => PatchInstructionV::Copy {
                offset: *offset as nat,
                size: *size as nat,
            },
            PatchInstruction::Add { data } => PatchInstructionV::Add { data: data@ },
        }
    }
}

/// Meaning of one delta instruction at the front of `s`.  A set leading
/// bit is a copy: the low seven bits select which offset and size bytes
/// follow.  A clear leading bit is an insert of the next `n` bytes, and
/// `n` must not be zero.
pub open spec fn patch_instr_parse(s: Seq<u8>) -> Option<(int, PatchInstructionV)> {
    if s.len() == 0 {
        None
    } else {
        let b0 = s[0];
        if b0 >= 128 {
            let m = (b0 - 128) as u8;
            let c = 1 + bits_before(m, 7) as int;
            if s.len() < c {
                None
            } else {
                let off = field_byte(s, m, 0) + 256 * field_byte(s, m, 1) + 65536 * field_byte(
                    s,
                    m,
                    2,
                ) + 16777216 * field_byte(s, m, 3);
                let sz = field_byte(s, m, 4) + 256 * field_byte(s, m, 5) + 65536 * field_byte(
                    s,
                    m,
                    6,
                );
                Some((c, PatchInstructionV::Copy { offset: off as nat, size: sz as nat }))
            }
        } else if b0 == 0 {
            None
        } else {
            let n = b0 as int;
            if s.len() < 1 + n {
                None
            } else {
                Some(((1 + n) as int, PatchInstructionV::Add { data: s.subrange(1, 1 + n) }))
            }
        }
    }
}

/// The byte count a copy instruction moves: a raw size of zero stands for
/// 65536.
pub open spec fn copy_span(raw: nat) -> nat {
    if raw == 0 {
        65536
    } else {
        raw
    }
}

/// The byte count a copy instruction moves, from its raw size field.
pub fn copy_size(raw: usize) -> (r: usize)
    ensures
        r as nat == copy_span(raw as nat),
{
    if raw == 0 {
        65536
    } else {
        raw
    }
}

/// Bit `i` of `m`, computed.
fn bit_of(m: u8, i: usize) -> (r: bool)
    ensures
        r == bit_at(m, i as nat),
    decreases i,
{
    if i == 0 {
        m % 2 == 1
    } else {
        bit_of(m / 2, i - 1)
    }
}

/// Parse one delta instruction from the front of `input`.
///
/// Fails with `BadDelta` exactly when the stream is empty, truncated, or
/// opens a zero-length insert.
#[verifier::rlimit(80)]
pub fn parse_patch_instruction(input: &[u8]) -> (r: Result<(usize, PatchInstruction), GitError>)
    ensures
        r matches Ok(p) ==> patch_instr_parse(input@) == Some((p.0 as int, p.1@)),
        r is Ok <==> patch_instr_parse(input@) is Some,
        r is Err ==> r == Err::<(usize, PatchInstruction), GitError>(GitError::BadDelta),
{
    if input.len() == 0 {
        return Err(GitError::BadDelta);
    }
    let b0 = input[0];
    if b0 >= 128 {
        let m = b0 % 128;
        let mut pos: usize = 1;
        let mut fields: Vec<u8> = Vec::new();
        let mut i: usize = 0;
        while i < 7
            invariant
                i <= 7,
                input@.len() >= 1,
                b0 == input@[0],
                b0 >= 128,
                m == (b0 - 128) as u8,
                1 <= pos <= input@.len(),
                pos == 1 + bits_before(m, i as nat),
                fields@.len() == i,
                forall|k: int| 0 <= k < i ==> fields@[k] == field_byte(input@, m, k as nat),
            decreases 7 - i,
        {
            if bit_of(m, i) {
                if pos >= input.len() {
                    proof {
                        assert((b0 - 128) as u8 == m);
                        lemma_bits_before_mono(m, i as nat + 1, 7nat);
                        assert(bits_before(m, i as nat + 1) == bits_before(m, i as nat) + 1);
                        assert(input@.len() < 1 + bits_before(m, 7) as int);
                        assert(patch_instr_parse(input@) is None);
                    }
                    return Err(GitError::BadDelta);
                }
                fields.push(input[pos]);
                pos = pos + 1;
            } else {
                fields.push(0);
            }
            i = i + 1;
        }
        proof {
            assert(input@.len() >= 1 + bits_before(m, 7) as int);
        }
        let off: u64 = (fields[0] as u64) + 256 * (fields[1] as u64) + 65536 * (fields[2] as u64)
            + 16777216 * (fields[3] as u64);
        let sz: u64 = (fields[4] as u64) + 256 * (fields[5] as u64) + 65536 * (fields[6] as u64);
        proof {
            assert(off <= 0xffffffffu64);
        }
        let instr = PatchInstruction::Copy { offset: off as usize, size: sz as usize };
        return Ok((pos, instr));
    }
    if b0 == 0 {
        return Err(GitError::BadDelta);
    }
    let n = b0 as usize;
    if input.len() - 1 < n {
        return Err(GitError::BadDelta);
    }
    let data = vstd::slice::slice_to_vec(vstd::slice::slice_subrange(input, 1, 1 + n));
    Ok((1 + n, PatchInstruction::Add { data }))
}

/// Set bits only accumulate.
proof fn lemma_bits_before_mono(m: u8, i: nat, j: nat)
    requires
        i <= j,
    ensures
        bits_before(m, i) <= bits_before(m, j),
    decreases j,
{
    if i < j {
        lemma_bits_before_mono(m, i, (j - 1) as nat);
    }
}

/// The result of applying a run of delta instructions against `base`:
/// each copy takes its span from `base`, each insert appends its own
/// bytes; `None` on a malformed instruction or an out-of-range copy.
pub open spec fn apply_instrs(s: Seq<u8>, base: Seq<u8>) -> Option<Seq<u8>>
    decreases s.len(),
{
    if s.len() == 0 {
        Some(Seq::empty())
    } else {
        match patch_instr_parse(s) {
            None => None,
            Some(ci) => {
                if 1 <= ci.0 <= s.len() {
                    let piece = match ci.1 {
                        PatchInstructionV::Copy { offset, size } => {
                            if offset + copy_span(size) <= base.len() {
                                Some(base.subrange(offset as int, (offset + copy_span(size)) as int))
                            } else {
                                None
                            }
                        },
                        PatchInstructionV::Add { data } => Some(data),
                    };
                    match piece {
                        None => None,
                        Some(p) => match apply_instrs(s.skip(ci.0), base) {
                            None => None,
                            Some(rest) => Some(p + rest),
                        },
                    }
                } else {
                    None
                }
            },
        }
    }
}

/// The meaning of a whole delta stream against `base`: a source length
/// that must equal the base length, a target length, then instructions
/// whose application must yield exactly the target length.
pub open spec fn delta_parse(s: Seq<u8>, base: Seq<u8>) -> Option<Seq<u8>> {
    match vlq7_parse(s) {
        None => None,
        Some(cv1) => {
            if cv1.1 != base.len() || !(1 <= cv1.0 <= s.len()) {
                None
            } else {
                match vlq7_parse(s.skip(cv1.0 as int)) {
                    None => None,
                    Some(cv2) => {
                        if !(1 <= cv2.0 <= s.len() - cv1.0) {
                            None
                        } else {
                            match apply_instrs(s.skip((cv1.0 + cv2.0) as int), base) {
                                None => None,
                                Some(out) => {
                                    if out.len() == cv2.1 {
                                        Some(out)
                                    } else {
                                        None
                                    }
                                },
                            }
                        }
                    },
                }
            }
        },
    }
}

/// True when both length fields of a delta use at most nine bytes and fit
/// the machine: what the decoder accepts beyond well-formedness.
pub open spec fn delta_sizes_modest(s: Seq<u8>) -> bool {
    vlq7_parse(s) matches Some(cv1) && cv1.0 <= 9 && cv1.1 <= usize::MAX && (vlq7_parse(
        s.skip(cv1.0 as int),
    ) matches Some(cv2) && cv2.0 <= 9 && cv2.1 <= usize::MAX)
}

/// Apply a delta stream to a source object's bytes.
///
/// Succeeds exactly when the stream is well formed against this source
/// and its length fields are within machine range; the result is then the
/// bytes the instructions lay down, of exactly the declared target
/// length.
#[verifier::rlimit(80)]
pub fn patch_delta(input: &[u8], source: &[u8]) -> (r: Result<Vec<u8>, GitError>)
    ensures
        r matches Ok(v) ==> delta_parse(input@, source@) == Some(v@),
        r is Ok <==> (delta_sizes_modest(input@) && delta_parse(input@, source@) is Some),
        r is Err ==> (r == Err::<Vec<u8>, GitError>(GitError::BadDelta) || r == Err::<
            Vec<u8>,
            GitError,
        >(GitError::TruncatedVarint) || r == Err::<Vec<u8>, GitError>(GitError::PackCorrupt)),
{
    let (c1, src_len) = match crate::util::read_vlq_full7(input) {
        Result::Ok(cv) => cv,
        Result::Err(e) => {
            return Err(e);
        },
    };
    if src_len != source.len() {
        return Err(GitError::BadDelta);
    }
    proof {
        crate::util::lemma_vlq7_bounds(input@);
    }
    let rest1 = vstd::slice::slice_subrange(input, c1, input.len());
    proof {
        assert(rest1@ =~= input@.skip(c1 as int));
    }
    let (c2, tgt_len) = match crate::util::read_vlq_full7(rest1) {
        Result::Ok(cv) => cv,
        Result::Err(e) => {
            return Err(e);
        },
    };
    proof {
        crate::util::lemma_vlq7_bounds(rest1@);
    }
    let base0 = c1 + c2;
    let mut pos: usize = base0;
    let mut out: Vec<u8> = Vec::new();
    let ghost tgt = tgt_len as nat;
    proof {
        assert(input@.skip(base0 as int) =~= rest1@.skip(c2 as int));
        assert(Seq::<u8>::empty() + apply_instrs(input@.skip(base0 as int), source@)->Some_0
            =~= apply_instrs(input@.skip(base0 as int), source@)->Some_0);
    }
    loop
        invariant
            base0 <= pos <= input@.len(),
            delta_sizes_modest(input@),
            (delta_parse(input@, source@) == (match apply_instrs(
                input@.skip(base0 as int),
                source@,
            ) {
                None => None::<Seq<u8>>,
                Some(o) => if o.len() == tgt {
                    Some(o)
                } else {
                    None
                },
            })),
            (match apply_instrs(input@.skip(pos as int), source@) {
                None => apply_instrs(input@.skip(base0 as int), source@) is None,
                Some(rest) => apply_instrs(input@.skip(base0 as int), source@) == Some(
                    out@ + rest,
                ),
            }),
        ensures
            pos == input@.len(),
            delta_sizes_modest(input@),
            apply_instrs(input@.skip(base0 as int), source@) == Some(out@),
            (delta_parse(input@, source@) == (if out@.len() == tgt {
                Some(out@)
            } else {
                None::<Seq<u8>>
            })),
        decreases input@.len() - pos,
    {
        if pos >= input.len() {
            proof {
                assert(input@.skip(pos as int) =~= Seq::<u8>::empty());
                assert(apply_instrs(Seq::<u8>::empty(), source@) == Some(Seq::<u8>::empty()));
                match apply_instrs(input@.skip(base0 as int), source@) {
                    None => {
                        assert(false);
                    },
                    Some(full) => {
                        assert(out@ + Seq::<u8>::empty() =~= out@);
                    },
                }
            }
            break ;
        }
        let here = vstd::slice::slice_subrange(input, pos, input.len());
        proof {
            assert(here@ =~= input@.skip(pos as int));
        }
        let (c, instr) = match parse_patch_instruction(here) {
            Result::Ok(p) => p,
            Result::Err(_) => {
                return Err(GitError::BadDelta);
            },
        };
        let ghost prior_out = out@;
        let ghost prior_pos = pos as int;
        match instr {
            PatchInstruction::Copy { offset, size } => {
                let span = copy_size(size);
                if offset > source.len() || source.len() - offset < span {
                    proof {
                        assert(apply_instrs(input@.skip(prior_pos), source@) is None);
                    }
                    return Err(GitError::BadDelta);
                }
                let piece = vstd::slice::slice_subrange(source, offset, offset + span);
                push_bytes(&mut out, piece);
            },
            PatchInstruction::Add { data } => {
                push_bytes(&mut out, data.as_slice());
            },
        }
        pos = pos + c;
        proof {
            assert(input@.skip(prior_pos).skip(c as int) =~= input@.skip(pos as int));
            match apply_instrs(input@.skip(pos as int), source@) {
                None => {
                    assert(apply_instrs(input@.skip(prior_pos), source@) is None);
                },
                Some(rest) => {
                    let piece = out@.subrange(prior_out.len() as int, out@.len() as int);
                    assert(out@ =~= prior_out + piece);
                    assert(apply_instrs(input@.skip(prior_pos), source@) == Some(piece + rest));
                    assert(prior_out + (piece + rest) =~= (prior_out + piece) + rest);
                },
            }
        }
    }
    if out.len() != tgt_len {
        return Err(GitError::BadDelta);
    }
    Ok(out)
}

/// True when the parse of a big-endian offset stays within its input.
proof fn lemma_vlq_be_bounds(s: Seq<u8>, acc: nat)
    ensures
        vlq_be_parse(s, acc) matches Some(cv) ==> 1 <= cv.0 <= s.len(),
    decreases s.len(),
{
    if s.len() != 0 && s[0] >= 128 {
        lemma_vlq_be_bounds(s.skip(1), (((acc + (s[0] % 128)) + 1) * 128) as nat);
    }
}

/// True for the four base kinds; delta kinds are not base kinds.
pub open spec fn is_base_kind(k: PackedObjectType) -> bool {
    k == PackedObjectType::Commit || k == PackedObjectType::Tree || k == PackedObjectType::Blob
        || k == PackedObjectType::Tag
}

/// The lowercase tag of a base kind; empty for the delta kinds.
pub open spec fn kind_tag(k: PackedObjectType) -> Seq<u8> {
    match k {
        PackedObjectType::Commit => seq![99u8, 111u8, 109u8, 109u8, 105u8, 116u8],
        PackedObjectType::Tree => seq![116u8, 114u8, 101u8, 101u8],
        PackedObjectType::Blob => seq![98u8, 108u8, 111u8, 98u8],
        PackedObjectType::Tag => seq![116u8, 97u8, 103u8],
        PackedObjectType::OfsDelta => Seq::empty(),
        PackedObjectType::RefDelta => Seq::empty(),
    }
}


/// Report whether a kind is one of the four base kinds.
pub fn kind_is_base(k: PackedObjectType) -> (r: bool)
    ensures
        r == is_base_kind(k),
{
    match k {
        PackedObjectType::Commit => true,
        PackedObjectType::Tree => true,
        PackedObjectType::Blob => true,
        PackedObjectType::Tag => true,
        PackedObjectType::OfsDelta => false,
        PackedObjectType::RefDelta => false,
    }
}

/// One fully resolved record of a pack: where it started, its identity,
/// its base kind, and its payload bytes.
#[derive(Debug, Clone, PartialEq, Eq)]
pub struct PackRecord {
    pub start: usize,
    pub id: Vec<u8>,
    pub kind: PackedObjectType,
    pub payload: Vec<u8>,
}


/// The mathematical value of a resolved record.
pub ghost struct PackRecordV {
    pub start: int,
    pub id: Seq<u8>,
    pub kind: PackedObjectType,
    pub payload: Seq<u8>,
}

impl View for PackRecord {
    type V = PackRecordV;

    open spec fn view(&self) -> PackRecordV {
        PackRecordV {
            start: self.start as int,
            id: self.id@,
            kind: self.kind,
            payload: self.payload@,
        }
    }
}

/// The index of the first record that started at `start`, if any.
pub open spec fn find_base_by_offset(recs: Seq<PackRecordV>, start: int) -> Option<int>
    decreases recs.len(),
{
    if recs.len() == 0 {
        None
    } else if recs[0].start == start {
        Some(0int)
    } else {
        match find_base_by_offset(recs.skip(1), start) {
            None => None,
            Some(i) => Some(i + 1),
        }
    }
}

/// The index of the first record with identity `id`, if any.
pub open spec fn find_base_by_id(recs: Seq<PackRecordV>, id: Seq<u8>) -> Option<int>
    decreases recs.len(),
{
    if recs.len() == 0 {
        None
    } else if recs[0].id == id {
        Some(0int)
    } else {
        match find_base_by_id(recs.skip(1), id) {
            None => None,
            Some(i) => Some(i + 1),
        }
    }
}

/// What the offset search finds is the first record at that start.
proof fn lemma_find_base_by_offset(recs: Seq<PackRecordV>, start: int)
    ensures
        match find_base_by_offset(recs, start) {
            None => forall|j: int| 0 <= j < recs.len() ==> (#[trigger] recs[j]).start != start,
            Some(i) => 0 <= i < recs.len() && recs[i].start == start && (forall|j: int|
                0 <= j < i ==> (#[trigger] recs[j]).start != start),
        },
    decreases recs.len(),
{
    if recs.len() != 0 && recs[0].start != start {
        lemma_find_base_by_offset(recs.skip(1), start);
        match find_base_by_offset(recs.skip(1), start) {
            None => {
                assert forall|j: int| 0 <= j < recs.len() implies (#[trigger] recs[j]).start
                    != start by {
                    if j > 0 {
                        assert(recs.skip(1)[j - 1] == recs[j]);
                    }
                }
            },
            Some(i) => {
                assert(recs.skip(1)[i] == recs[i + 1]);
                assert forall|j: int| 0 <= j < i + 1 implies (#[trigger] recs[j]).start
                    != start by {
                    if j > 0 {
                        assert(recs.skip(1)[j - 1] == recs[j]);
                    }
                }
            },
        }
    }
}

/// What the identity search finds is the first record with that identity.
proof fn lemma_find_base_by_id(recs: Seq<PackRecordV>, id: Seq<u8>)
    ensures
        match find_base_by_id(recs, id) {
            None => forall|j: int| 0 <= j < recs.len() ==> (#[trigger] recs[j]).id != id,
            Some(i) => 0 <= i < recs.len() && recs[i].id == id && (forall|j: int|
                0 <= j < i ==> (#[trigger] recs[j]).id != id),
        },
    decreases recs.len(),
{
    if recs.len() != 0 && recs[0].id != id {
        lemma_find_base_by_id(recs.skip(1), id);
        match find_base_by_id(recs.skip(1), id) {
            None => {
                assert forall|j: int| 0 <= j < recs.len() implies (#[trigger] recs[j]).id != id by {
                    if j > 0 {
                        assert(recs.skip(1)[j - 1] == recs[j]);
                    }
                }
            },
            Some(i) => {
                assert(recs.skip(1)[i] == recs[i + 1]);
                assert forall|j: int| 0 <= j < i + 1 implies (#[trigger] recs[j]).id != id by {
                    if j > 0 {
                        assert(recs.skip(1)[j - 1] == recs[j]);
                    }
                }
            },
        }
    }
}

/// The compressed body of one record and its resolution: the zlib stream
/// at `pos` must inflate to the header's size; a delta record is then
/// applied against its base's payload under the base's kind, and the
/// record's identity is the hex digest of its canonical stream.
pub open spec fn pack_record_body(
    input: Seq<u8>,
    start: int,
    pos: int,
    body_end: int,
    size: nat,
    kind: PackedObjectType,
    base: Option<Seq<u8>>,
) -> Option<(int, PackRecordV)> {
    match crate::zlib::zlib_inflate(input.subrange(pos, body_end)) {
        None => None,
        Some(cw) => {
            if !(cw.1 <= body_end - pos) {
                None
            } else if cw.0.len() != size {
                None
            } else {
                let payload = match base {
                    None => Some(cw.0),
                    Some(b) => if delta_sizes_modest(cw.0) {
                        delta_parse(cw.0, b)
                    } else {
                        None
                    },
                };
                match payload {
                    None => None,
                    Some(p) => Some(
                        (
                            pos + cw.1,
                            PackRecordV {
                                start: start,
                                id: hex_of(sha1_of(object_stream(kind_tag(kind), p))),
                                kind: kind,
                                payload: p,
                            },
                        ),
                    ),
                }
            }
        },
    }
}

/// One whole record at `pos`, resolved against the records decoded so
/// far: its header, its base (an earlier record located by backward
/// offset or by the twenty raw identity bytes), and its body.  Yields the
/// position after the record and the resolved record.  The nine-byte and
/// machine-size bounds are the decoder's stated acceptance conditions.
pub open spec fn pack_record_parse(
    input: Seq<u8>,
    pos: int,
    body_end: int,
    recs: Seq<PackRecordV>,
) -> Option<(int, PackRecordV)> {
    if !(0 <= pos < body_end <= input.len()) {
        None
    } else {
        match pack_header_parse(input.subrange(pos, body_end)) {
            None => None,
            Some(hks) => {
                if !(hks.0 <= 9 && hks.2 <= usize::MAX) {
                    None
                } else {
                    let pos2 = pos + hks.0;
                    if hks.1 == PackedObjectType::OfsDelta {
                        match vlq_be_parse(input.subrange(pos2, body_end), 0) {
                            None => None,
                            Some(oc) => {
                                if !(oc.0 <= 8 && oc.1 <= usize::MAX) {
                                    None
                                } else if oc.1 > pos {
                                    None
                                } else {
                                    match find_base_by_offset(recs, pos - oc.1) {
                                        None => None,
                                        Some(bix) => pack_record_body(
                                            input,
                                            pos,
                                            pos2 + oc.0,
                                            body_end,
                                            hks.2,
                                            recs[bix].kind,
                                            Some(recs[bix].payload),
                                        ),
                                    }
                                }
                            },
                        }
                    } else if hks.1 == PackedObjectType::RefDelta {
                        if body_end - pos2 < 20 {
                            None
                        } else {
                            match find_base_by_id(recs, hex_of(input.subrange(pos2, pos2 + 20))) {
                                None => None,
                                Some(bix) => pack_record_body(
                                    input,
                                    pos,
                                    pos2 + 20,
                                    body_end,
                                    hks.2,
                                    recs[bix].kind,
                                    Some(recs[bix].payload),
                                ),
                            }
                        }
                    } else {
                        pack_record_body(input, pos, pos2, body_end, hks.2, hks.1, None)
                    }
                }
            },
        }
    }
}

/// The next `n` records, decoded sequentially onto those already held.
pub open spec fn pack_records_parse(
    input: Seq<u8>,
    pos: int,
    body_end: int,
    recs: Seq<PackRecordV>,
    n: nat,
) -> Option<Seq<PackRecordV>>
    decreases n,
{
    if n == 0 {
        Some(recs)
    } else {
        match pack_record_parse(input, pos, body_end, recs) {
            None => None,
            Some(pr) => pack_records_parse(input, pr.0, body_end, recs.push(pr.1), (n - 1) as nat),
        }
    }
}

/// The meaning of a whole pack stream: the `PACK` signature, version two
/// or three, a record count, the counted records decoded sequentially
/// from offset twelve, and a trailing digest of everything before it.
pub open spec fn pack_parse(input: Seq<u8>) -> Option<Seq<PackRecordV>> {
    if input.len() < 32 {
        None
    } else if input.subrange(0, 4) != crate::util::pack_signature() {
        None
    } else if !(be32_at(input, 4) == 2 || be32_at(input, 4) == 3) {
        None
    } else if input.subrange(input.len() - 20, input.len() as int) != sha1_of(
        input.take(input.len() - 20),
    ) {
        None
    } else {
        pack_records_parse(input, 12, input.len() - 20, Seq::empty(), be32_at(input, 8))
    }
}

/// A well-resolved record: a base kind, and an identity that is the hex
/// digest of the record's canonical stream.
pub open spec fn record_wf(r: PackRecord) -> bool {
    is_base_kind(r.kind) && r.id@ == hex_of(sha1_of(object_stream(kind_tag(r.kind), r.payload@)))
}

/// The canonical stream of a payload under a base kind.
pub fn build_object_stream(kind: PackedObjectType, payload: &[u8]) -> (r: Vec<u8>)
    requires
        is_base_kind(kind),
    ensures
        r@ == object_stream(kind_tag(kind), payload@),
{
    let mut out: Vec<u8> = Vec::new();
    match kind {
        PackedObjectType::Commit => {
            out.push(99);
            out.push(111);
            out.push(109);
            out.push(109);
            out.push(105);
            out.push(116);
        },
        PackedObjectType::Tree => {
            out.push(116);
            out.push(114);
            out.push(101);
            out.push(101);
        },
        PackedObjectType::Blob => {
            out.push(98);
            out.push(108);
            out.push(111);
            out.push(98);
        },
        PackedObjectType::Tag => {
            out.push(116);
            out.push(97);
            out.push(103);
        },
        _ => {
            proof {
                assert(false);
            }
        },
    }
    out.push(32);
    let digits = dec_bytes(payload.len() as u64);
    push_bytes(&mut out, digits.as_slice());
    out.push(0);
    push_bytes(&mut out, payload);
    assert(out@ =~= object_stream(kind_tag(kind), payload@));
    out
}

/// The identity of a payload under a base kind: the hex digest of its
/// canonical stream.
pub fn record_identity(kind: PackedObjectType, payload: &[u8]) -> (r: Vec<u8>)
    requires
        is_base_kind(kind),
    ensures
        r@ == hex_of(sha1_of(object_stream(kind_tag(kind), payload@))),
{
    let stream = build_object_stream(kind, payload);
    let raw = sha1_digest(stream.as_slice());
    hex_encode(raw.as_slice())
}

/// Find the first record that started at `start`.
fn find_by_offset(records: &Vec<PackRecord>, start: usize) -> (r: Option<usize>)
    ensures
        ({
            let rv = Seq::new(records@.len(), |k: int| records@[k]@);
            match r {
                Some(ix) => ix < records@.len() && find_base_by_offset(rv, start as int) == Some(
                    ix as int,
                ),
                None => find_base_by_offset(rv, start as int) is None,
            }
        }),
{
    let ghost rv = Seq::new(records@.len(), |k: int| records@[k]@);
    let mut i: usize = 0;
    while i < records.len()
        invariant
            i <= records@.len(),
            rv == Seq::new(records@.len(), |k: int| records@[k]@),
            forall|j: int| 0 <= j < i ==> (#[trigger] rv[j]).start != start,
        decreases records@.len() - i,
    {
        if records[i].start == start {
            proof {
                lemma_find_base_by_offset(rv, start as int);
                match find_base_by_offset(rv, start as int) {
                    None => {
                        assert(rv[i as int].start == start);
                        assert(false);
                    },
                    Some(k) => {
                        if k < i {
                            assert(rv[k].start != start);
                            assert(false);
                        }
                        if k > i {
                            assert(rv[i as int].start != start);
                            assert(false);
                        }
                    },
                }
            }
            return Some(i);
        }
        i = i + 1;
    }
    proof {
        lemma_find_base_by_offset(rv, start as int);
        match find_base_by_offset(rv, start as int) {
            None => {},
            Some(k) => {
                assert(rv[k].start != start);
                assert(false);
            },
        }
    }
    None
}

/// Find the first record with the given identity.
fn find_by_id(records: &Vec<PackRecord>, id: &[u8]) -> (r: Option<usize>)
    ensures
        ({
            let rv = Seq::new(records@.len(), |k: int| records@[k]@);
            match r {
                Some(ix) => ix < records@.len() && find_base_by_id(rv, id@) == Some(ix as int),
                None => find_base_by_id(rv, id@) is None,
            }
        }),
{
    let ghost rv = Seq::new(records@.len(), |k: int| records@[k]@);
    let mut i: usize = 0;
    while i < records.len()
        invariant
            i <= records@.len(),
            rv == Seq::new(records@.len(), |k: int| records@[k]@),
            forall|j: int| 0 <= j < i ==> (#[trigger] rv[j]).id != id@,
        decreases records@.len() - i,
    {
        if crate::objparse::bytes_eq(records[i].id.as_slice(), id) {
            proof {
                lemma_find_base_by_id(rv, id@);
                match find_base_by_id(rv, id@) {
                    None => {
                        assert(rv[i as int].id == id@);
                        assert(false);
                    },
                    Some(k) => {
                        if k < i {
                            assert(rv[k].id != id@);
                            assert(false);
                        }
                        if k > i {
                            assert(rv[i as int].id != id@);
                            assert(false);
                        }
                    },
                }
            }
            return Some(i);
        }
        i = i + 1;
    }
    proof {
        lemma_find_base_by_id(rv, id@);
        match find_base_by_id(rv, id@) {
            None => {},
            Some(k) => {
                assert(rv[k].id != id@);
                assert(false);
            },
        }
    }
    None
}

/// The big-endian 32-bit value at `i`.
pub open spec fn be32_at(s: Seq<u8>, i: int) -> nat {
    (s[i] * 16777216 + s[i + 1] * 65536 + s[i + 2] * 256 + s[i + 3]) as nat
}

/// Read the big-endian 32-bit value at `i`.
fn read_be32(input: &[u8], i: usize) -> (r: u32)
    requires
        i + 4 <= input@.len(),
    ensures
        r as nat == be32_at(input@, i as int),
{
    (input[i] as u32) * 16777216 + (input[i + 1] as u32) * 65536 + (input[i + 2] as u32) * 256 + (
    input[i + 3] as u32)
}

/// Decode one record at `pos`, resolving any delta against the records
/// decoded so far.  Returns the position after the record and the
/// resolved record; the result is exactly what `pack_record_parse` says.
#[verifier::rlimit(100)]
fn parse_one_record(
    input: &[u8],
    pos: usize,
    body_end: usize,
    records: &Vec<PackRecord>,
) -> (r: Result<(usize, PackRecord), GitError>)
    requires
        pos <= body_end <= input@.len(),
        forall|j: int| 0 <= j < records@.len() ==> record_wf(#[trigger] records@[j]),
    ensures
        ({
            let rv = Seq::new(records@.len(), |k: int| records@[k]@);
            &&& (r matches Ok(p) ==> pack_record_parse(input@, pos as int, body_end as int, rv)
                == Some((p.0 as int, p.1@)) && pos < p.0 <= body_end && record_wf(p.1))
            &&& (r is Ok <==> pack_record_parse(input@, pos as int, body_end as int, rv) is Some)
            &&& (r is Err ==> (r == Err::<(usize, PackRecord), GitError>(GitError::PackCorrupt)
                || r == Err::<(usize, PackRecord), GitError>(GitError::BadDelta) || r == Err::<
                (usize, PackRecord),
                GitError,
            >(GitError::TruncatedVarint)))
        }),
{
    let ghost rv = Seq::new(records@.len(), |k: int| records@[k]@);
    if pos >= body_end {
        return Err(GitError::PackCorrupt);
    }
    let here = vstd::slice::slice_subrange(input, pos, body_end);
    proof {
        assert(here@ =~= input@.subrange(pos as int, body_end as int));
    }
    let (hc, ks) = match parse_header(here) {
        Result::Ok(p) => p,
        Result::Err(e) => {
            return Err(e);
        },
    };
    let kind = ks.0;
    let size = ks.1;
    proof {
        crate::util::lemma_vlq4_bounds(here@);
    }
    let mut pos2 = pos + hc;
    let mut base_ix: Option<usize> = None;
    match kind {
        PackedObjectType::OfsDelta => {
            let here2 = vstd::slice::slice_subrange(input, pos2, body_end);
            proof {
                assert(here2@ =~= input@.subrange(pos2 as int, body_end as int));
            }
            let (oc, off) = match read_ofs_offset(here2) {
                Result::Ok(p) => p,
                Result::Err(e) => {
                    return Err(e);
                },
            };
            proof {
                lemma_vlq_be_bounds(here2@, 0);
            }
            pos2 = pos2 + oc;
            if off > pos {
                return Err(GitError::PackCorrupt);
            }
            match find_by_offset(records, pos - off) {
                Option::Some(ix) => {
                    base_ix = Some(ix);
                },
                Option::None => {
                    return Err(GitError::PackCorrupt);
                },
            }
        },
        PackedObjectType::RefDelta => {
            if body_end - pos2 < 20 {
                return Err(GitError::PackCorrupt);
            }
            let raw = vstd::slice::slice_subrange(input, pos2, pos2 + 20);
            let base_id = hex_encode(raw);
            proof {
                assert(raw@ =~= input@.subrange(pos2 as int, pos2 as int + 20));
            }
            pos2 = pos2 + 20;
            match find_by_id(records, base_id.as_slice()) {
                Option::Some(ix) => {
                    base_ix = Some(ix);
                },
                Option::None => {
                    return Err(GitError::PackCorrupt);
                },
            }
        },
        _ => {},
    }
    let here3 = vstd::slice::slice_subrange(input, pos2, body_end);
    proof {
        assert(here3@ =~= input@.subrange(pos2 as int, body_end as int));
    }
    let (content, used) = match crate::zlib::zlib_decompress(here3) {
        Option::Some(p) => p,
        Option::None => {
            return Err(GitError::PackCorrupt);
        },
    };
    let new_pos = pos2 + used;
    if content.len() != size {
        return Err(GitError::PackCorrupt);
    }
    let final_kind: PackedObjectType;
    let final_payload: Vec<u8>;
    match base_ix {
        Option::Some(ix) => {
            let applied = match patch_delta(content.as_slice(), records[ix].payload.as_slice()) {
                Result::Ok(v) => v,
                Result::Err(_) => {
                    return Err(GitError::BadDelta);
                },
            };
            final_kind = records[ix].kind;
            final_payload = applied;
        },
        Option::None => {
            final_kind = kind;
            final_payload = content;
        },
    }
    let id = record_identity(final_kind, final_payload.as_slice());
    let rec = PackRecord { start: pos, id, kind: final_kind, payload: final_payload };
    proof {
        assert(pack_record_parse(input@, pos as int, body_end as int, rv) == Some(
            (new_pos as int, rec@),
        ));
    }
    Ok((new_pos, rec))
}

/// Decode a whole pack stream into fully resolved records.
///
/// The stream must open with the `PACK` signature, version two or three,
/// and a record count, and must close with a digest of everything before
/// it; the digest is checked before any record is used.  Deltas are
/// resolved against earlier records.  The result is exactly what
/// `pack_parse` says of the bytes: it succeeds if and only if the counted
/// records decode from offset twelve, and each returned record carries a
/// base kind and the identity of its canonical stream.
pub fn parse_pack_file(input: &[u8]) -> (r: Result<Vec<PackRecord>, GitError>)
    ensures
        r is Ok <==> pack_parse(input@) is Some,
        r matches Ok(recs) ==> (pack_parse(input@) matches Some(q) && recs@.len() == q.len() && (
        forall|j: int| 0 <= j < q.len() ==> #[trigger] recs@[j]@ == q[j])),
        r matches Ok(recs) ==> ({
            &&& input@.len() >= 32
            &&& input@.subrange(0, 4) == crate::util::pack_signature()
            &&& (be32_at(input@, 4) == 2 || be32_at(input@, 4) == 3)
            &&& recs@.len() == be32_at(input@, 8)
            &&& input@.subrange(input@.len() - 20, input@.len() as int) == sha1_of(
                input@.take(input@.len() - 20),
            )
            &&& forall|j: int| 0 <= j < recs@.len() ==> record_wf(#[trigger] recs@[j])
        }),
        r is Err ==> (r == Err::<Vec<PackRecord>, GitError>(GitError::PackCorrupt) || r == Err::<
            Vec<PackRecord>,
            GitError,
        >(GitError::BadDelta) || r == Err::<Vec<PackRecord>, GitError>(GitError::TruncatedVarint)),
{
    let total = input.len();
    if total < 32 {
        return Err(GitError::PackCorrupt);
    }
    if !(input[0] == 80 && input[1] == 65 && input[2] == 67 && input[3] == 75) {
        proof {
            if input@.subrange(0, 4) == crate::util::pack_signature() {
                assert(input@.subrange(0, 4)[0] == input@[0]);
                assert(input@.subrange(0, 4)[1] == input@[1]);
                assert(input@.subrange(0, 4)[2] == input@[2]);
                assert(input@.subrange(0, 4)[3] == input@[3]);
                assert(false);
            }
        }
        return Err(GitError::PackCorrupt);
    }
    proof {
        assert(input@.subrange(0, 4) =~= crate::util::pack_signature());
    }
    let version = read_be32(input, 4);
    if !(version == 2 || version == 3) {
        return Err(GitError::PackCorrupt);
    }
    let count = read_be32(input, 8) as usize;
    let prefix = vstd::slice::slice_subrange(input, 0, total - 20);
    let trail = vstd::slice::slice_subrange(input, total - 20, total);
    proof {
        assert(prefix@ =~= input@.take(input@.len() - 20));
        assert(trail@ =~= input@.subrange(input@.len() - 20, input@.len() as int));
    }
    let digest = sha1_digest(prefix);
    if !crate::objparse::bytes_eq(digest.as_slice(), trail) {
        return Err(GitError::PackCorrupt);
    }
    let body_end = total - 20;
    let mut pos: usize = 12;
    let mut records: Vec<PackRecord> = Vec::new();
    let mut n: usize = 0;
    proof {
        assert(Seq::new(records@.len(), |k: int| records@[k]@) =~= Seq::<PackRecordV>::empty());
    }
    while n < count
        invariant
            12 <= pos <= body_end,
            body_end == input@.len() - 20,
            input@.len() >= 32,
            n <= count,
            records@.len() == n,
            forall|j: int| 0 <= j < records@.len() ==> record_wf(#[trigger] records@[j]),
            pack_parse(input@) == pack_records_parse(
                input@,
                pos as int,
                body_end as int,
                Seq::new(records@.len(), |k: int| records@[k]@),
                (count - n) as nat,
            ),
        decreases count - n,
    {
        let ghost prior_rv = Seq::new(records@.len(), |k: int| records@[k]@);
        let (new_pos, rec) = match parse_one_record(input, pos, body_end, &records) {
            Result::Ok(p) => p,
            Result::Err(e) => {
                proof {
                    assert(pack_record_parse(input@, pos as int, body_end as int, prior_rv)
                        is None);
                    assert(pack_parse(input@) is None);
                }
                return Err(e);
            },
        };
        let ghost prior_pos = pos as int;
        let ghost prior_n = n as int;
        let ghost prior_records = records@;
        records.push(rec);
        pos = new_pos;
        n = n + 1;
        proof {
            assert(Seq::new(records@.len(), |k: int| records@[k]@) =~= prior_rv.push(rec@));
            assert(pack_records_parse(
                input@,
                prior_pos,
                body_end as int,
                prior_rv,
                (count - prior_n) as nat,
            ) == pack_records_parse(
                input@,
                pos as int,
                body_end as int,
                prior_rv.push(rec@),
                (count - n) as nat,
            ));
            assert forall|j: int| 0 <= j < records@.len() implies record_wf(
                #[trigger] records@[j],
            ) by {
                if j < prior_rv.len() {
                    assert(records@[j] == prior_records[j]);
                    assert(record_wf(prior_records[j]));
                }
            }
        }
    }
    proof {
        let rv = Seq::new(records@.len(), |k: int| records@[k]@);
        assert(pack_records_parse(input@, pos as int, body_end as int, rv, 0nat) == Some(rv));
        match pack_parse(input@) {
            None => {
                assert(false);
            },
            Some(q) => {
                assert(recs_match(records@, q));
            },
        }
    }
    Ok(records)
}

/// True when the views of held records equal a spec record sequence.
pub open spec fn recs_match(records: Seq<PackRecord>, q: Seq<PackRecordV>) -> bool {
    records.len() == q.len() && forall|j: int| 0 <= j < q.len() ==> #[trigger] records[j]@ == q[j]
}

/// Delta round trip: an accepted delta yields exactly the declared target
/// length, and its source length names the base.
pub proof fn lemma_delta_target_length(s: Seq<u8>, base: Seq<u8>)
    requires
        delta_parse(s, base) is Some,
    ensures
        delta_parse(s, base) matches Some(out) && (vlq7_parse(s) matches Some(cv1) && cv1.1
            == base.len() && (vlq7_parse(s.skip(cv1.0 as int)) matches Some(cv2) && out.len()
            == cv2.1)),
{
}

} // verus!
