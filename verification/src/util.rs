use vstd::prelude::*;

use crate::errors::GitError;

verus! {

/// Meaning of a little-endian variable-length integer: each byte contributes
/// its low seven bits, least significant group first, and the high bit marks
/// continuation.  Yields `(bytes consumed, value)`, or `None` when the input
/// ends before the continuation bit clears.
pub open spec fn vlq7_parse(s: Seq<u8>) -> Option<(nat, nat)>
    decreases s.len(),
{
    if s.len() == 0 {
        None
    } else if s[0] < 128 {
        Some((1nat, s[0] as nat))
    } else {
        match vlq7_parse(s.skip(1)) {
            None => None,
            Some(cv) => Some(((cv.0 + 1) as nat, ((s[0] - 128) + 128 * cv.1) as nat)),
        }
    }
}

/// Meaning of the variant whose first byte contributes only its low four
/// bits (the upper three having other duties); later bytes contribute seven
/// bits each, least significant group first.
pub open spec fn vlq4_parse(s: Seq<u8>) -> Option<(nat, nat)> {
    if s.len() == 0 {
        None
    } else if s[0] < 128 {
        Some((1nat, (s[0] % 16) as nat))
    } else {
        match vlq7_parse(s.skip(1)) {
            None => None,
            Some(cv) => Some(((cv.0 + 1) as nat, ((s[0] % 16) + 16 * cv.1) as nat)),
        }
    }
}

/// True when the first `n` bytes of `s` all have their continuation bit set.
pub open spec fn all_continuation(s: Seq<u8>, n: int) -> bool {
    forall|j: int| 0 <= j < n ==> #[trigger] s[j] >= 128
}

/// The weight of the `i`-th seven-bit group: `128^i`.
pub open spec fn vlq_scale(i: nat) -> nat
    decreases i,
{
    if i == 0 {
        1
    } else {
        128 * vlq_scale((i - 1) as nat)
    }
}

proof fn lemma_vlq_scale_values()
    ensures
        vlq_scale(7) == 0x2000000000000,
        vlq_scale(8) == 0x100000000000000,
        vlq_scale(9) == 0x8000000000000000,
{
    assert(vlq_scale(0) == 1);
    assert(vlq_scale(1) == 128);
    assert(vlq_scale(2) == 0x4000);
    assert(vlq_scale(3) == 0x200000);
    assert(vlq_scale(4) == 0x10000000);
    assert(vlq_scale(5) == 0x800000000);
    assert(vlq_scale(6) == 0x40000000000);
    assert(vlq_scale(7) == 0x2000000000000);
    assert(vlq_scale(8) == 0x100000000000000);
    assert(vlq_scale(9) == 0x8000000000000000);
}

proof fn lemma_vlq_scale_mono(i: nat, j: nat)
    requires
        i <= j,
    ensures
        1 <= vlq_scale(i) <= vlq_scale(j),
    decreases j,
{
    if j == 0 {
    } else if i == j {
        lemma_vlq_scale_mono(0, (j - 1) as nat);
    } else {
        lemma_vlq_scale_mono(i, (j - 1) as nat);
    }
}

/// Report whether the continuation bit of `byte` is set.
pub fn high_bit(byte: u8) -> (r: bool)
    ensures
        r == (byte >= 128),
{
    byte >= 128
}

/// Parse a variable-length integer whose first byte contributes four bits.
///
/// Returns the number of bytes consumed and the value.  Fails with
/// `TruncatedVarint` exactly when the input ends before the continuation
/// bit clears, however long it runs, and with `PackCorrupt` when a
/// terminated encoding runs past nine bytes or its value does not fit the
/// machine.
pub fn parse_size(input: &[u8]) -> (r: Result<(usize, usize), GitError>)
    ensures
        r matches Ok(cv) ==> vlq4_parse(input@) == Some((cv.0 as nat, cv.1 as nat)),
        r is Ok <==> (vlq4_parse(input@) matches Some(cv) && cv.0 <= 9 && cv.1 <= usize::MAX),
        r is Err ==> r == Err::<(usize, usize), GitError>(GitError::TruncatedVarint) || r
            == Err::<(usize, usize), GitError>(GitError::PackCorrupt),
        r == Err::<(usize, usize), GitError>(GitError::TruncatedVarint) <==> vlq4_parse(input@)
            is None,
{
    if input.len() == 0 {
        return Err(GitError::TruncatedVarint);
    }
    let b0 = input[0];
    let low0 = b0 % 16;
    if b0 < 128 {
        return Ok((1, low0 as usize));
    }
    let mut i: usize = 1;
    let mut value: u64 = low0 as u64;
    let mut mult: u64 = 16;
    loop
        invariant
            1 <= i <= 9,
            i <= input@.len(),
            input@.len() >= 1,
            input@[0] >= 128,
            all_continuation(input@, i as int),
            mult == 16 * vlq_scale((i - 1) as nat),
            value < mult,
            (match vlq7_parse(input@.skip(i as int)) {
                None => vlq4_parse(input@) is None,
                Some(cv) => vlq4_parse(input@) == Some(
                    ((i + cv.0) as nat, (value + mult * cv.1) as nat),
                ),
            }),
        decreases input@.len() - i,
    {
        proof {
            lemma_vlq_scale_values();
            lemma_vlq_scale_mono((i - 1) as nat, 8nat);
            if i <= 8 {
                lemma_vlq_scale_mono((i - 1) as nat, 7nat);
                lemma_vlq_scale_mono(i as nat, 8nat);
            }
        }
        if i >= input.len() {
            proof {
                lemma_vlq4_none_iff(input@);
            }
            return Err(GitError::TruncatedVarint);
        }
        if i > 8 {
            // Over-long: still truncation when the stream never clears
            // the continuation bit, otherwise out of range.
            let mut j = i;
            while j < input.len()
                invariant
                    i <= j <= input@.len(),
                    i > 8,
                    all_continuation(input@, j as int),
                decreases input@.len() - j,
            {
                if input[j] < 128 {
                    proof {
                        lemma_vlq4_none_iff(input@);
                        lemma_vlq4_consumed_char(input@);
                        match vlq4_parse(input@) {
                            None => {
                                assert(input@[j as int] >= 128);
                            },
                            Some(cv) => {
                                if cv.0 <= 9 {
                                    assert(input@[cv.0 - 1] >= 128);
                                }
                            },
                        }
                    }
                    return Err(GitError::PackCorrupt);
                }
                j = j + 1;
            }
            proof {
                lemma_vlq4_none_iff(input@);
            }
            return Err(GitError::TruncatedVarint);
        }
        let b = input[i];
        let low = b % 128;
        proof {
            let rest = input@.skip(i as int);
            assert(rest[0] == input@[i as int]);
            assert(rest.skip(1) =~= input@.skip(i as int + 1));
            assert(mult * low <= mult * 127) by (nonlinear_arith)
                requires
                    low <= 127,
                    mult >= 0,
            ;
        }
        if b < 128 {
            let v = value + mult * (low as u64);
            if v > (usize::MAX as u64) {
                return Err(GitError::PackCorrupt);
            }
            return Ok((i + 1, v as usize));
        }
        proof {
            let rest = input@.skip(i as int);
            match vlq7_parse(rest.skip(1)) {
                Some(cv) => {
                    assert(value + mult * ((b - 128) + 128 * cv.1) == (value + mult * (b - 128))
                        + (mult * 128) * cv.1) by (nonlinear_arith);
                },
                None => {},
            }
            assert(mult * 127 + mult == mult * 128) by (nonlinear_arith);
        }
        value = value + mult * (low as u64);
        mult = mult * 128;
        i = i + 1;
    }
}

/// Parse a variable-length integer whose every byte contributes seven bits.
///
/// Returns the number of bytes consumed and the value.  Fails with
/// `TruncatedVarint` exactly when the input ends before the continuation
/// bit clears, however long it runs, and with `PackCorrupt` when a
/// terminated encoding runs past nine bytes or its value does not fit the
/// machine.
pub fn read_vlq_full7(input: &[u8]) -> (r: Result<(usize, usize), GitError>)
    ensures
        r matches Ok(cv) ==> vlq7_parse(input@) == Some((cv.0 as nat, cv.1 as nat)),
        r is Ok <==> (vlq7_parse(input@) matches Some(cv) && cv.0 <= 9 && cv.1 <= usize::MAX),
        r is Err ==> r == Err::<(usize, usize), GitError>(GitError::TruncatedVarint) || r
            == Err::<(usize, usize), GitError>(GitError::PackCorrupt),
        r == Err::<(usize, usize), GitError>(GitError::TruncatedVarint) <==> vlq7_parse(input@)
            is None,
{
    let mut i: usize = 0;
    let mut value: u64 = 0;
    let mut mult: u64 = 1;
    proof {
        assert(input@.skip(0) =~= input@);
    }
    loop
        invariant
            0 <= i <= 9,
            i <= input@.len(),
            all_continuation(input@, i as int),
            mult == vlq_scale(i as nat),
            value < mult || (value == 0 && mult == 1),
            (match vlq7_parse(input@.skip(i as int)) {
                None => vlq7_parse(input@) is None,
                Some(cv) => vlq7_parse(input@) == Some(
                    ((i + cv.0) as nat, (value + mult * cv.1) as nat),
                ),
            }),
        decreases input@.len() - i,
    {
        proof {
            lemma_vlq_scale_values();
            lemma_vlq_scale_mono(i as nat, 9nat);
            if i <= 8 {
                lemma_vlq_scale_mono(i as nat, 8nat);
            }
        }
        if i >= input.len() {
            proof {
                lemma_vlq7_none_iff(input@);
            }
            return Err(GitError::TruncatedVarint);
        }
        if i > 8 {
            // Over-long: still truncation when the stream never clears
            // the continuation bit, otherwise out of range.
            let mut j = i;
            while j < input.len()
                invariant
                    i <= j <= input@.len(),
                    i > 8,
                    all_continuation(input@, j as int),
                decreases input@.len() - j,
            {
                if input[j] < 128 {
                    proof {
                        lemma_vlq7_none_iff(input@);
                        lemma_vlq7_consumed_char(input@);
                        match vlq7_parse(input@) {
                            None => {
                                assert(input@[j as int] >= 128);
                            },
                            Some(cv) => {
                                if cv.0 <= 9 {
                                    assert(input@[cv.0 - 1] >= 128);
                                }
                            },
                        }
                    }
                    return Err(GitError::PackCorrupt);
                }
                j = j + 1;
            }
            proof {
                lemma_vlq7_none_iff(input@);
            }
            return Err(GitError::TruncatedVarint);
        }
        let b = input[i];
        let low = b % 128;
        proof {
            let rest = input@.skip(i as int);
            assert(rest[0] == input@[i as int]);
            assert(rest.skip(1) =~= input@.skip(i as int + 1));
            assert(mult * low <= mult * 127) by (nonlinear_arith)
                requires
                    low <= 127,
                    mult >= 0,
            ;
        }
        if b < 128 {
            let v = value + mult * (low as u64);
            if v > (usize::MAX as u64) {
                return Err(GitError::PackCorrupt);
            }
            return Ok((i + 1, v as usize));
        }
        proof {
            let rest = input@.skip(i as int);
            match vlq7_parse(rest.skip(1)) {
                Some(cv) => {
                    assert(value + mult * ((b - 128) + 128 * cv.1) == (value + mult * (b - 128))
                        + (mult * 128) * cv.1) by (nonlinear_arith);
                },
                None => {},
            }
            assert(mult * 127 + mult == mult * 128) by (nonlinear_arith);
        }
        value = value + mult * (low as u64);
        mult = mult * 128;
        i = i + 1;
    }
}

/// The four signature bytes that open a pack stream: ASCII `PACK`.
pub open spec fn pack_signature() -> Seq<u8> {
    seq![80u8, 65u8, 67u8, 75u8]
}

/// True when `s` opens with four hexadecimal digits.
pub open spec fn is_hex4(s: Seq<u8>) -> bool {
    s.len() >= 4 && crate::hexcode::is_hex_digit_byte(s[0]) && crate::hexcode::is_hex_digit_byte(
        s[1],
    ) && crate::hexcode::is_hex_digit_byte(s[2]) && crate::hexcode::is_hex_digit_byte(s[3])
}

/// The value of the four hexadecimal digits that open `s`.
pub open spec fn hex4_value(s: Seq<u8>) -> nat
    recommends
        is_hex4(s),
{
    (crate::hexcode::hex_val(s[0]) * 4096 + crate::hexcode::hex_val(s[1]) * 256
        + crate::hexcode::hex_val(s[2]) * 16 + crate::hexcode::hex_val(s[3])) as nat
}

/// Meaning of a packet-line stream: lines are consumed from the front until
/// a flush packet or an embedded pack stream; the pack is yielded whole as a
/// final synthetic line.  Yields `(bytes consumed, payloads)`; `None` means
/// the stream is ill formed (non-hex length, a length below four, or too few
/// bytes).  One trailing newline is trimmed from each payload.
pub open spec fn pkt_lines_parse(s: Seq<u8>) -> Option<(nat, Seq<Seq<u8>>)>
    decreases s.len(),
{
    if s.len() >= 4 && s.subrange(0, 4) == pack_signature() {
        Some((s.len(), seq![s]))
    } else if !is_hex4(s) {
        None
    } else {
        let n = hex4_value(s) as int;
        if n == 0 {
            Some((4nat, Seq::empty()))
        } else if n < 4 || s.len() < n {
            None
        } else {
            let payload = if n > 4 && s[n - 1] == 10 {
                s.subrange(4, n - 1)
            } else {
                s.subrange(4, n)
            };
            match pkt_lines_parse(s.skip(n)) {
                None => None,
                Some(r) => Some(((n + r.0) as nat, seq![payload] + r.1)),
            }
        }
    }
}

/// Decode packet lines from the front of `input` until a flush packet or an
/// embedded pack stream.
///
/// Returns the number of bytes consumed together with the line payloads,
/// one trailing newline trimmed from each; an embedded pack stream is
/// returned whole as a final synthetic line.  Fails with `BadPktLine`
/// exactly when the stream is ill formed.
#[verifier::rlimit(60)]
pub fn parse_packet_lines(input: &[u8]) -> (r: Result<(usize, Vec<Vec<u8>>), GitError>)
    ensures
        r is Ok <==> pkt_lines_parse(input@) is Some,
        r matches Ok(p) ==> (pkt_lines_parse(input@) matches Some(q) && p.0 == q.0 && p.1@.len()
            == q.1.len() && (forall|j: int| 0 <= j < q.1.len() ==> #[trigger] p.1@[j]@ == q.1[j])),
        r is Err ==> r == Err::<(usize, Vec<Vec<u8>>), GitError>(GitError::BadPktLine),
{
    let mut pos: usize = 0;
    let mut lines: Vec<Vec<u8>> = Vec::new();
    proof {
        assert(input@.skip(0) =~= input@);
    }
    loop
        invariant
            pos <= input@.len(),
            (match pkt_lines_parse(input@.skip(pos as int)) {
                None => pkt_lines_parse(input@) is None,
                Some(q) => pkt_lines_parse(input@) matches Some(fq) && fq.0 == pos + q.0
                    && fq.1.len() == lines@.len() + q.1.len() && (forall|j: int|
                    0 <= j < lines@.len() ==> #[trigger] fq.1[j] == lines@[j]@) && (forall|j: int|
                    0 <= j < q.1.len() ==> #[trigger] q.1[j] == fq.1[lines@.len() + j]),
            }),
        decreases input@.len() - pos,
    {
        let ghost rest = input@.skip(pos as int);
        let rem = input.len() - pos;
        if rem >= 4 && input[pos] == 80 && input[pos + 1] == 65 && input[pos + 2] == 67 && input[pos
            + 3] == 75 {
            proof {
                assert(rest.subrange(0, 4) =~= pack_signature());
                assert(input@.subrange(pos as int, input@.len() as int) =~= rest);
            }
            let tail = vstd::slice::slice_to_vec(vstd::slice::slice_subrange(
                input,
                pos,
                input.len(),
            ));
            let ghost prior_lines = lines@;
            lines.push(tail);
            proof {
                assert(pkt_lines_parse(rest) == Some((rest.len(), seq![rest])));
                match pkt_lines_parse(input@) {
                    None => {
                        assert(false);
                    },
                    Some(fq) => {
                        assert(fq.1[prior_lines.len() as int] == seq![rest][0]);
                        assert forall|j: int| 0 <= j < fq.1.len() implies #[trigger] lines@[j]@
                            == fq.1[j] by {
                            if j < prior_lines.len() {
                                assert(fq.1[j] == prior_lines[j]@);
                            }
                        }
                    },
                }
            }
            return Ok((input.len(), lines));
        }
        if rem < 4 {
            proof {
                assert(!(rest.len() >= 4 && rest.subrange(0, 4) == pack_signature()));
                assert(!is_hex4(rest));
            }
            return Err(GitError::BadPktLine);
        }
        proof {
            if rest.subrange(0, 4) == pack_signature() {
                assert(rest.subrange(0, 4)[0] == input@[pos as int]);
                assert(rest.subrange(0, 4)[1] == input@[pos as int + 1]);
                assert(rest.subrange(0, 4)[2] == input@[pos as int + 2]);
                assert(rest.subrange(0, 4)[3] == input@[pos as int + 3]);
                assert(false);
            }
        }
        let d0 = input[pos];
        let d1 = input[pos + 1];
        let d2 = input[pos + 2];
        let d3 = input[pos + 3];
        if !(crate::hexcode::byte_is_hex_digit(d0) && crate::hexcode::byte_is_hex_digit(d1)
            && crate::hexcode::byte_is_hex_digit(d2) && crate::hexcode::byte_is_hex_digit(d3)) {
            return Err(GitError::BadPktLine);
        }
        let n: usize = (crate::hexcode::hex_digit_value(d0) as usize) * 4096 + (
        crate::hexcode::hex_digit_value(d1) as usize) * 256 + (crate::hexcode::hex_digit_value(d2)
            as usize) * 16 + (crate::hexcode::hex_digit_value(d3) as usize);
        proof {
            assert(is_hex4(rest));
            assert(hex4_value(rest) == n);
        }
        if n == 0 {
            return Ok((pos + 4, lines));
        }
        if n < 4 || rem < n {
            return Err(GitError::BadPktLine);
        }
        let payload: Vec<u8> = if n > 4 && input[pos + n - 1] == 10 {
            proof {
                assert(rest[n - 1] == input@[pos + n - 1]);
                assert(rest.subrange(4, n as int - 1) =~= input@.subrange(
                    pos as int + 4,
                    pos + n - 1,
                ));
            }
            vstd::slice::slice_to_vec(vstd::slice::slice_subrange(input, pos + 4, pos + n - 1))
        } else {
            proof {
                if n > 4 {
                    assert(rest[n - 1] == input@[pos + n - 1]);
                }
                assert(rest.subrange(4, n as int) =~= input@.subrange(pos as int + 4, pos + n));
            }
            vstd::slice::slice_to_vec(vstd::slice::slice_subrange(input, pos + 4, pos + n))
        };
        proof {
            assert(rest.skip(n as int) =~= input@.skip(pos + n));
        }
        let ghost prior_lines = lines@;
        let ghost prior_pos = pos as int;
        lines.push(payload);
        pos = pos + n;
        proof {
            let ghost tail_parse = pkt_lines_parse(input@.skip(pos as int));
            match tail_parse {
                None => {
                    assert(pkt_lines_parse(input@.skip(prior_pos)) is None);
                },
                Some(rr) => {
                    assert(pkt_lines_parse(input@.skip(prior_pos)) == Some(
                        (((n as nat) + rr.0) as nat, seq![payload@] + rr.1),
                    ));
                    match pkt_lines_parse(input@) {
                        None => {
                            assert(false);
                        },
                        Some(fq) => {
                            assert(fq.1[prior_lines.len() as int] == (seq![payload@] + rr.1)[0]);
                            assert forall|j: int| 0 <= j < lines@.len() implies #[trigger] fq.1[j]
                                == lines@[j]@ by {
                                if j < prior_lines.len() {
                                    assert(fq.1[j] == prior_lines[j]@);
                                }
                            }
                            assert forall|j: int| 0 <= j < rr.1.len() implies #[trigger] rr.1[j]
                                == fq.1[lines@.len() + j] by {
                                assert((seq![payload@] + rr.1)[1 + j] == fq.1[prior_lines.len() + (
                                1 + j)]);
                                assert((seq![payload@] + rr.1)[1 + j] == rr.1[j]);
                            }
                        },
                    }
                },
            }
        }
    }
}

/// A little-endian variable-length parse fails exactly when the input
/// ends before the continuation bit clears: every byte is a continuation
/// byte.
pub proof fn lemma_vlq7_none_iff(s: Seq<u8>)
    ensures
        vlq7_parse(s) is None <==> all_continuation(s, s.len() as int),
    decreases s.len(),
{
    if s.len() != 0 {
        lemma_vlq7_none_iff(s.skip(1));
        if s[0] >= 128 {
            if vlq7_parse(s) is None {
                assert forall|j: int| 0 <= j < s.len() implies #[trigger] s[j] >= 128 by {
                    if j > 0 {
                        assert(s.skip(1)[j - 1] == s[j]);
                    }
                }
            }
            if all_continuation(s, s.len() as int) {
                assert forall|j: int| 0 <= j < s.len() - 1 implies #[trigger] s.skip(1)[j]
                    >= 128 by {
                    assert(s.skip(1)[j] == s[j + 1]);
                }
            }
        }
    }
}

/// The four-bit variant fails under exactly the same condition.
pub proof fn lemma_vlq4_none_iff(s: Seq<u8>)
    ensures
        vlq4_parse(s) is None <==> all_continuation(s, s.len() as int),
{
    if s.len() != 0 && s[0] >= 128 {
        lemma_vlq7_none_iff(s.skip(1));
        if vlq4_parse(s) is None {
            assert forall|j: int| 0 <= j < s.len() implies #[trigger] s[j] >= 128 by {
                if j > 0 {
                    assert(s.skip(1)[j - 1] == s[j]);
                }
            }
        }
        if all_continuation(s, s.len() as int) {
            assert forall|j: int| 0 <= j < s.len() - 1 implies #[trigger] s.skip(1)[j] >= 128 by {
                assert(s.skip(1)[j] == s[j + 1]);
            }
        }
    }
}

/// What a parse consumes ends at the first byte whose continuation bit
/// is clear.
pub proof fn lemma_vlq7_consumed_char(s: Seq<u8>)
    ensures
        vlq7_parse(s) matches Some(cv) ==> 1 <= cv.0 <= s.len() && s[cv.0 - 1] < 128
            && all_continuation(s, cv.0 - 1),
    decreases s.len(),
{
    if s.len() != 0 && s[0] >= 128 {
        lemma_vlq7_consumed_char(s.skip(1));
        match vlq7_parse(s.skip(1)) {
            None => {},
            Some(cv) => {
                assert(s.skip(1)[cv.0 - 1] == s[cv.0 as int]);
                assert forall|j: int| 0 <= j < cv.0 implies #[trigger] s[j] >= 128 by {
                    if j > 0 {
                        assert(s.skip(1)[j - 1] == s[j]);
                    }
                }
            },
        }
    }
}

/// The four-bit variant consumes under the same characterization.
pub proof fn lemma_vlq4_consumed_char(s: Seq<u8>)
    ensures
        vlq4_parse(s) matches Some(cv) ==> 1 <= cv.0 <= s.len() && s[cv.0 - 1] < 128
            && all_continuation(s, cv.0 - 1),
{
    if s.len() != 0 && s[0] >= 128 {
        lemma_vlq7_consumed_char(s.skip(1));
        match vlq7_parse(s.skip(1)) {
            None => {},
            Some(cv) => {
                assert(s.skip(1)[cv.0 - 1] == s[cv.0 as int]);
                assert forall|j: int| 0 <= j < cv.0 implies #[trigger] s[j] >= 128 by {
                    if j > 0 {
                        assert(s.skip(1)[j - 1] == s[j]);
                    }
                }
            },
        }
    }
}

/// What a variable-length parse consumes stays within its input.
pub proof fn lemma_vlq7_bounds(s: Seq<u8>)
    ensures
        vlq7_parse(s) matches Some(cv) ==> 1 <= cv.0 <= s.len(),
    decreases s.len(),
{
    if s.len() != 0 && s[0] >= 128 {
        lemma_vlq7_bounds(s.skip(1));
    }
}

/// The four-bit variant consumes within its input too.
pub proof fn lemma_vlq4_bounds(s: Seq<u8>)
    ensures
        vlq4_parse(s) matches Some(cv) ==> 1 <= cv.0 <= s.len(),
{
    if s.len() != 0 && s[0] >= 128 {
        lemma_vlq7_bounds(s.skip(1));
    }
}

/// What a packet-line parse consumes stays within its input.
pub proof fn lemma_pkt_consumed(s: Seq<u8>)
    ensures
        pkt_lines_parse(s) matches Some(p) ==> 0 <= p.0 <= s.len(),
    decreases s.len(),
{
    if s.len() >= 4 && s.subrange(0, 4) == pack_signature() {
    } else if is_hex4(s) {
        let n = hex4_value(s) as int;
        if n >= 4 && s.len() >= n {
            lemma_pkt_consumed(s.skip(n));
        }
    }
}

} // verus!
