use vstd::prelude::*;

use crate::errors::GitError;
use crate::object::{push_bytes, valid_hex_id};
use crate::objparse::{bytes_eq, find_byte};
use crate::util::{parse_packet_lines, pkt_lines_parse};

verus! {

/// One advertised reference: a name and the identity it points at.
#[derive(Debug, Clone, PartialEq, Eq)]
pub struct Ref {
    pub name: Vec<u8>,
    pub hash: Vec<u8>,
}

/// The mathematical value of a reference.
pub ghost struct RefV {
    pub name: Seq<u8>,
    pub hash: Seq<u8>,
}

impl View for Ref {
    type V = RefV;

    open spec fn view(&self) -> RefV {
        RefV { name: self.name@, hash: self.hash@ }
    }
}

/// The service line that must open an advertisement.
pub open spec fn service_line() -> Seq<u8> {
    seq![
        35u8, 32u8, 115u8, 101u8, 114u8, 118u8, 105u8, 99u8, 101u8, 61u8, 103u8, 105u8, 116u8,
        45u8, 117u8, 112u8, 108u8, 111u8, 97u8, 100u8, 45u8, 112u8, 97u8, 99u8, 107u8,
    ]
}

/// One reference line without its capability suffix: a forty-digit
/// identity, a space, a non-empty name.
pub open spec fn ref_info_parse(info: Seq<u8>) -> Option<RefV> {
    match find_byte(info, 32) {
        None => None,
        Some(sp) => {
            if !(0 <= sp < info.len()) {
                None
            } else {
                let hash = info.take(sp);
                let name = info.skip(sp + 1);
                if valid_hex_id(hash) && name.len() > 0 {
                    Some(RefV { name: name, hash: hash })
                } else {
                    None
                }
            }
        },
    }
}

/// Space-separated tokens, empty tokens dropped.
pub open spec fn split_tokens(s: Seq<u8>) -> Seq<Seq<u8>>
    decreases s.len(),
{
    if s.len() == 0 {
        Seq::empty()
    } else {
        match find_byte(s, 32) {
            None => seq![s],
            Some(i) => {
                if !(0 <= i < s.len()) {
                    seq![s]
                } else {
                    if i == 0 {
                        split_tokens(s.skip(1))
                    } else {
                        seq![s.take(i)] + split_tokens(s.skip(i + 1))
                    }
                }
            },
        }
    }
}

/// The reference lines of an advertisement: each a reference, a NUL and a
/// capability list allowed on the first line only.  Yields the references
/// and the capability tokens.
pub open spec fn ref_lines_parse(lines: Seq<Seq<u8>>, first: bool) -> Option<
    (Seq<RefV>, Seq<Seq<u8>>),
>
    decreases lines.len(),
{
    if lines.len() == 0 {
        Some((Seq::empty(), Seq::empty()))
    } else {
        let line = lines[0];
        let split = match find_byte(line, 0) {
            None => (line, None::<Seq<u8>>),
            Some(z) => {
                if 0 <= z < line.len() {
                    (line.take(z), Some(line.skip(z + 1)))
                } else {
                    (line, None)
                }
            },
        };
        if split.1 is Some && !first {
            None
        } else {
            match ref_info_parse(split.0) {
                None => None,
                Some(rv) => {
                    match ref_lines_parse(lines.skip(1), false) {
                        None => None,
                        Some(rest) => {
                            let caps = if first {
                                match split.1 {
                                    Some(c) => split_tokens(c),
                                    None => Seq::empty(),
                                }
                            } else {
                                rest.1
                            };
                            Some((seq![rv] + rest.0, caps))
                        },
                    }
                },
            }
        }
    }
}

/// The meaning of a whole advertisement: one section holding exactly the
/// service line, then a section of reference lines that consumes the rest
/// of the input.
pub open spec fn advert_parse(s: Seq<u8>) -> Option<(Seq<RefV>, Seq<Seq<u8>>)> {
    match pkt_lines_parse(s) {
        None => None,
        Some(p1) => {
            if !(p1.1.len() == 1 && p1.1[0] == service_line() && 0 <= p1.0 <= s.len()) {
                None
            } else {
                match pkt_lines_parse(s.skip(p1.0 as int)) {
                    None => None,
                    Some(p2) => {
                        if p1.0 + p2.0 != s.len() {
                            None
                        } else {
                            ref_lines_parse(p2.1, true)
                        }
                    },
                }
            }
        },
    }
}

/// Later reference lines carry no capability tokens of their own.
proof fn lemma_ref_lines_nocaps(lines: Seq<Seq<u8>>)
    ensures
        ref_lines_parse(lines, false) matches Some(q) ==> q.1 == Seq::<Seq<u8>>::empty(),
    decreases lines.len(),
{
    if lines.len() != 0 {
        lemma_ref_lines_nocaps(lines.skip(1));
    }
}

/// Split a capability list into its space-separated tokens.
fn split_capabilities(s: &[u8]) -> (r: Vec<Vec<u8>>)
    ensures
        r@.len() == split_tokens(s@).len(),
        forall|j: int| 0 <= j < r@.len() ==> #[trigger] r@[j]@ == split_tokens(s@)[j],
{
    let mut out: Vec<Vec<u8>> = Vec::new();
    let mut pos: usize = 0;
    proof {
        assert(s@.skip(0) =~= s@);
    }
    loop
        invariant
            pos <= s@.len(),
            (split_tokens(s@) =~= {
                let rest = split_tokens(s@.skip(pos as int));
                Seq::new(out@.len(), |k: int| out@[k]@) + rest
            }),
        ensures
            pos == s@.len(),
            split_tokens(s@) =~= Seq::new(out@.len(), |k: int| out@[k]@) + split_tokens(
                s@.skip(pos as int),
            ),
        decreases s@.len() - pos,
    {
        if pos >= s.len() {
            break ;
        }
        let ghost rest = s@.skip(pos as int);
        let nxt = match crate::objparse::scan_for(s, pos, 32) {
            Option::Some(k) => k,
            Option::None => {
                proof {
                    crate::objparse::lemma_scan_find_none(s@, pos as int, 32);
                }
                let token = vstd::slice::slice_to_vec(
                    vstd::slice::slice_subrange(s, pos, s.len()),
                );
                proof {
                    assert(token@ =~= rest);
                    assert(split_tokens(rest) == seq![rest]);
                }
                let ghost prior = out@;
                out.push(token);
                proof {
                    assert(Seq::new(out@.len(), |k: int| out@[k]@) =~= Seq::new(
                        prior.len(),
                        |k: int| prior[k]@,
                    ).push(rest));
                    assert(s@.skip(s@.len() as int) =~= Seq::<u8>::empty());
                    assert(split_tokens(Seq::<u8>::empty()) =~= Seq::<Seq<u8>>::empty());
                    assert(split_tokens(s@) =~= Seq::new(out@.len(), |k: int| out@[k]@)
                        + split_tokens(s@.skip(s@.len() as int)));
                }
                pos = s.len();
                break ;
            },
        };
        proof {
            crate::objparse::lemma_scan_find(s@, pos as int, 32, nxt as int);
        }
        if nxt == pos {
            proof {
                assert(rest.skip(1) =~= s@.skip(pos as int + 1));
            }
            pos = pos + 1;
        } else {
            let token = vstd::slice::slice_to_vec(vstd::slice::slice_subrange(s, pos, nxt));
            proof {
                assert(token@ =~= rest.take(nxt - pos));
                assert(rest.skip(nxt - pos + 1) =~= s@.skip(nxt as int + 1));
            }
            let ghost prior = out@;
            out.push(token);
            proof {
                assert(split_tokens(rest) == seq![rest.take(nxt - pos)] + split_tokens(
                    s@.skip(nxt as int + 1),
                ));
                assert(Seq::new(out@.len(), |k: int| out@[k]@) =~= Seq::new(
                    prior.len(),
                    |k: int| prior[k]@,
                ).push(token@));
                assert(split_tokens(s@) =~= Seq::new(out@.len(), |k: int| out@[k]@)
                    + split_tokens(s@.skip(nxt as int + 1)));
            }
            pos = nxt + 1;
        }
    }
    proof {
        assert(s@.skip(s@.len() as int) =~= Seq::<u8>::empty());
        assert(split_tokens(Seq::<u8>::empty()) =~= Seq::<Seq<u8>>::empty());
        assert(split_tokens(s@) =~= Seq::new(out@.len(), |k: int| out@[k]@));
    }
    out
}

/// Parse one reference line, already stripped of any capability suffix.
fn parse_ref_info(info: &[u8]) -> (r: Result<Ref, GitError>)
    ensures
        r matches Ok(rv) ==> ref_info_parse(info@) == Some(rv@),
        r is Ok <==> ref_info_parse(info@) is Some,
        r is Err ==> r == Err::<Ref, GitError>(GitError::ProtocolError),
{
    let ilen = info.len();
    let sp = match crate::objparse::scan_for(info, 0, 32) {
        Option::Some(sp) => sp,
        Option::None => {
            proof {
                crate::objparse::lemma_scan_find_none(info@, 0, 32);
                assert(info@.skip(0) =~= info@);
            }
            return Err(GitError::ProtocolError);
        },
    };
    proof {
        crate::objparse::lemma_scan_find(info@, 0, 32, sp as int);
        assert(info@.skip(0) =~= info@);
    }
    let hash_sl = vstd::slice::slice_subrange(info, 0, sp);
    let name_sl = vstd::slice::slice_subrange(info, sp + 1, info.len());
    proof {
        assert(hash_sl@ =~= info@.take(sp as int));
        assert(name_sl@ =~= info@.skip(sp as int + 1));
    }
    if !(sp == 40 && crate::hexcode::all_hex_digits(hash_sl) && name_sl.len() > 0) {
        return Err(GitError::ProtocolError);
    }
    Ok(
        Ref {
            name: vstd::slice::slice_to_vec(name_sl),
            hash: vstd::slice::slice_to_vec(hash_sl),
        },
    )
}

/// Parse a whole advertisement into its references and capabilities.
///
/// Fails with `BadPktLine` on bad framing, and with `ProtocolError` when
/// the shape is wrong: a missing or repeated service line, trailing
/// bytes, a malformed reference, or capabilities off the first line.
#[verifier::rlimit(100)]
pub fn parse_advertisement(input: &[u8]) -> (r: Result<(Vec<Ref>, Vec<Vec<u8>>), GitError>)
    ensures
        r matches Ok(p) ==> (advert_parse(input@) matches Some(q) && p.0@.len() == q.0.len() && (
        forall|j: int| 0 <= j < q.0.len() ==> #[trigger] p.0@[j]@ == q.0[j]) && p.1@.len()
            == q.1.len() && (forall|j: int| 0 <= j < q.1.len() ==> #[trigger] p.1@[j]@ == q.1[j])),
        r is Ok <==> advert_parse(input@) is Some,
        r is Err ==> (r == Err::<(Vec<Ref>, Vec<Vec<u8>>), GitError>(GitError::ProtocolError) || r
            == Err::<(Vec<Ref>, Vec<Vec<u8>>), GitError>(GitError::BadPktLine)),
{
    let (c1, head_lines) = match parse_packet_lines(input) {
        Result::Ok(p) => p,
        Result::Err(_) => {
            return Err(GitError::BadPktLine);
        },
    };
    let service: Vec<u8> = vec![
        35u8, 32u8, 115u8, 101u8, 114u8, 118u8, 105u8, 99u8, 101u8, 61u8, 103u8, 105u8, 116u8,
        45u8, 117u8, 112u8, 108u8, 111u8, 97u8, 100u8, 45u8, 112u8, 97u8, 99u8, 107u8,
    ];
    proof {
        assert(service@ =~= service_line());
    }
    if !(head_lines.len() == 1 && bytes_eq(head_lines[0].as_slice(), service.as_slice())) {
        return Err(GitError::ProtocolError);
    }
    proof {
        crate::util::lemma_pkt_consumed(input@);
    }
    let rest = vstd::slice::slice_subrange(input, c1, input.len());
    proof {
        assert(rest@ =~= input@.skip(c1 as int));
        crate::util::lemma_pkt_consumed(rest@);
    }
    let (c2, ref_lines) = match parse_packet_lines(rest) {
        Result::Ok(p) => p,
        Result::Err(_) => {
            return Err(GitError::BadPktLine);
        },
    };
    if c1 + c2 != input.len() {
        return Err(GitError::ProtocolError);
    }
    let ghost lseq = (pkt_lines_parse(rest@)->Some_0).1;
    let mut refs: Vec<Ref> = Vec::new();
    let mut caps: Vec<Vec<u8>> = Vec::new();
    let mut j: usize = 0;
    proof {
        assert(lseq.skip(0) =~= lseq);
    }
    while j < ref_lines.len()
        invariant
            j <= ref_lines@.len(),
            ref_lines@.len() == lseq.len(),
            advert_parse(input@) == ref_lines_parse(lseq, true),
            j == 0 ==> caps@.len() == 0,
            forall|k: int| 0 <= k < lseq.len() ==> #[trigger] ref_lines@[k]@ == lseq[k],
            (match ref_lines_parse(lseq.skip(j as int), j == 0) {
                None => ref_lines_parse(lseq, true) is None,
                Some(q) => ref_lines_parse(lseq, true) matches Some(fq) && fq.0.len()
                    == refs@.len() + q.0.len() && (forall|k: int|
                    0 <= k < refs@.len() ==> #[trigger] fq.0[k] == refs@[k]@) && (forall|k: int|
                    0 <= k < q.0.len() ==> #[trigger] q.0[k] == fq.0[refs@.len() + k]) && (if j == 0 {
                    fq.1 == q.1
                } else {
                    fq.1.len() == caps@.len() && (forall|k: int|
                        0 <= k < caps@.len() ==> #[trigger] fq.1[k] == caps@[k]@) && q.1
                        == Seq::<Seq<u8>>::empty()
                }),
            }),
        decreases ref_lines@.len() - j,
    {
        let ghost lrest = lseq.skip(j as int);
        let line = &ref_lines[j];
        let llen = line.len();
        proof {
            assert(lrest[0] == lseq[j as int]);
            assert(lrest.skip(1) =~= lseq.skip(j as int + 1));
        }
        let z = crate::objparse::scan_for(line.as_slice(), 0, 0);
        proof {
            assert(line@.skip(0) =~= line@);
        }
        let info_end: usize;
        let mut line_caps: Option<usize> = None;
        match z {
            Option::Some(zz) => {
                proof {
                    crate::objparse::lemma_scan_find(line@, 0, 0, zz as int);
                }
                info_end = zz;
                line_caps = Some(zz + 1);
            },
            Option::None => {
                proof {
                    crate::objparse::lemma_scan_find_none(line@, 0, 0);
                }
                info_end = line.len();
            },
        }
        if line_caps.is_some() && j > 0 {
            proof {
                assert(ref_lines_parse(lrest, false) is None);
            }
            return Err(GitError::ProtocolError);
        }
        let info_sl = vstd::slice::slice_subrange(line.as_slice(), 0, info_end);
        proof {
            assert(info_sl@ =~= line@.take(info_end as int));
            if line_caps is None {
                assert(info_sl@ =~= line@);
            }
        }
        let rv = match parse_ref_info(info_sl) {
            Result::Ok(rv) => rv,
            Result::Err(_) => {
                proof {
                    assert(ref_lines_parse(lrest, j == 0) is None);
                }
                return Err(GitError::ProtocolError);
            },
        };
        let ghost prior_refs = refs@;
        refs.push(rv);
        if j == 0 {
            match line_caps {
                Option::Some(cstart) => {
                    let caps_sl = vstd::slice::slice_subrange(
                        line.as_slice(),
                        cstart,
                        line.len(),
                    );
                    proof {
                        assert(caps_sl@ =~= line@.skip(cstart as int));
                    }
                    caps = split_capabilities(caps_sl);
                },
                Option::None => {},
            }
        }
        let ghost prior_j = j as int;
        j = j + 1;
        proof {
            lemma_ref_lines_nocaps(lseq.skip(j as int));
            match ref_lines_parse(lseq.skip(j as int), false) {
                None => {
                    assert(ref_lines_parse(lseq.skip(prior_j), prior_j == 0) is None);
                },
                Some(q2) => {
                    match ref_lines_parse(lseq.skip(prior_j), prior_j == 0) {
                        None => {},
                        Some(q1) => {
                            assert(q1.0 == seq![rv@] + q2.0);
                            match ref_lines_parse(lseq, true) {
                                None => {
                                    assert(false);
                                },
                                Some(fq) => {
                                    assert(fq.0[prior_refs.len() as int] == (seq![rv@] + q2.0)[0]);
                                    assert forall|k: int|
                                        0 <= k < refs@.len() implies #[trigger] fq.0[k]
                                        == refs@[k]@ by {
                                        if k < prior_refs.len() {
                                            assert(fq.0[k] == prior_refs[k]@);
                                        }
                                    }
                                    assert forall|k: int|
                                        0 <= k < q2.0.len() implies #[trigger] q2.0[k] == fq.0[
                                    refs@.len() + k] by {
                                        assert((seq![rv@] + q2.0)[1 + k] == fq.0[prior_refs.len()
                                            + (1 + k)]);
                                        assert((seq![rv@] + q2.0)[1 + k] == q2.0[k]);
                                    }
                                    if prior_j == 0 {
                                        assert(fq.1 == q1.1);
                                        match line_caps {
                                            Option::Some(cstart) => {
                                                assert(q1.1 == split_tokens(
                                                    lrest[0].skip(cstart as int),
                                                ));
                                                assert forall|k: int|
                                                    0 <= k < caps@.len() implies #[trigger] fq.1[k]
                                                    == caps@[k]@ by {
                                                }
                                            },
                                            Option::None => {
                                                assert(q1.1 == Seq::<Seq<u8>>::empty());
                                            },
                                        }
                                    } else {
                                        assert(fq.1.len() == caps@.len());
                                        assert(q2.1 == Seq::<Seq<u8>>::empty());
                                    }
                                },
                            }
                        },
                    }
                },
            }
        }
    }
    proof {
        assert(lseq.skip(j as int) =~= Seq::<Seq<u8>>::empty());
        assert(ref_lines_parse(Seq::<Seq<u8>>::empty(), false) == Some(
            (Seq::<RefV>::empty(), Seq::<Seq<u8>>::empty()),
        ));
        assert(ref_lines_parse(Seq::<Seq<u8>>::empty(), true) == Some(
            (Seq::<RefV>::empty(), Seq::<Seq<u8>>::empty()),
        ));
        match advert_parse(input@) {
            None => {
                assert(false);
            },
            Some(fq) => {
                assert(fq.0.len() == refs@.len());
                if j == 0 {
                    assert(fq.1 =~= Seq::<Seq<u8>>::empty());
                }
            },
        }
    }
    Ok((refs, caps))
}

/// The capability token sent on the first want line.
pub open spec fn agent_token() -> Seq<u8> {
    seq![
        97u8, 103u8, 101u8, 110u8, 116u8, 61u8, 103u8, 105u8, 116u8, 47u8, 49u8, 46u8, 56u8,
        46u8, 49u8,
    ]
}

/// True when a reference names a branch: its name opens with
/// `refs/heads/`.
pub open spec fn is_branch(r: RefV) -> bool {
    r.name.len() >= 11 && r.name.take(11) == seq![
        114u8, 101u8, 102u8, 115u8, 47u8, 104u8, 101u8, 97u8, 100u8, 115u8, 47u8,
    ]
}

/// The framed want line for one identity.  The first line carries the
/// capability list after a NUL; framed lengths are fixed by the fixed
/// line shapes.
pub open spec fn want_line(hash: Seq<u8>, first: bool) -> Seq<u8> {
    if first {
        seq![48u8, 48u8, 52u8, 50u8, 119u8, 97u8, 110u8, 116u8, 32u8] + hash + seq![0u8]
            + agent_token() + seq![10u8]
    } else {
        seq![48u8, 48u8, 51u8, 50u8, 119u8, 97u8, 110u8, 116u8, 32u8] + hash + seq![10u8]
    }
}

/// The want lines for the branch references, in order.
pub open spec fn want_lines(refs: Seq<RefV>, first: bool) -> Seq<u8>
    decreases refs.len(),
{
    if refs.len() == 0 {
        Seq::empty()
    } else if !is_branch(refs[0]) {
        want_lines(refs.skip(1), first)
    } else {
        want_line(refs[0].hash, first) + want_lines(refs.skip(1), false)
    }
}

/// A whole want request: the want lines, a flush packet, a framed `done`
/// line, and a final flush packet.
pub open spec fn want_request(refs: Seq<RefV>) -> Seq<u8> {
    want_lines(refs, true) + seq![48u8, 48u8, 48u8, 48u8] + seq![
        48u8, 48u8, 48u8, 57u8, 100u8, 111u8, 110u8, 101u8, 10u8,
    ] + seq![48u8, 48u8, 48u8, 48u8]
}

/// Build the body of the want request for the advertised references,
/// asking for every branch.
#[verifier::rlimit(80)]
pub fn build_want_request(refs: &Vec<Ref>) -> (r: Vec<u8>)
    requires
        forall|i: int| 0 <= i < refs@.len() ==> valid_hex_id((#[trigger] refs@[i]@).hash),
    ensures
        r@ == want_request(Seq::new(refs@.len(), |i: int| refs@[i]@)),
{
    let ghost rv = Seq::new(refs@.len(), |i: int| refs@[i]@);
    let mut out: Vec<u8> = Vec::new();
    let mut first = true;
    let mut i: usize = 0;
    let heads_lit: Vec<u8> = vec![
        114u8, 101u8, 102u8, 115u8, 47u8, 104u8, 101u8, 97u8, 100u8, 115u8, 47u8,
    ];
    proof {
        assert(rv.skip(0) =~= rv);
    }
    while i < refs.len()
        invariant
            i <= refs@.len(),
            rv == Seq::new(refs@.len(), |k: int| refs@[k]@),
            heads_lit@ == seq![
                114u8,
                101u8,
                102u8,
                115u8,
                47u8,
                104u8,
                101u8,
                97u8,
                100u8,
                115u8,
                47u8,
            ],
            want_lines(rv, true) == out@ + want_lines(rv.skip(i as int), first),
        decreases refs@.len() - i,
    {
        let ghost rrest = rv.skip(i as int);
        proof {
            assert(rrest[0] == rv[i as int]);
            assert(rrest.skip(1) =~= rv.skip(i as int + 1));
        }
        let name = &refs[i].name;
        let mut branch = false;
        if name.len() >= 11 {
            let prefix = vstd::slice::slice_subrange(name.as_slice(), 0, 11);
            proof {
                assert(prefix@ =~= rv[i as int].name.take(11));
            }
            if bytes_eq(prefix, heads_lit.as_slice()) {
                branch = true;
            }
        }
        proof {
            assert(branch == is_branch(rv[i as int]));
        }
        if branch {
            let ghost prior = out@;
            if first {
                out.push(48);
                out.push(48);
                out.push(52);
                out.push(50);
            } else {
                out.push(48);
                out.push(48);
                out.push(51);
                out.push(50);
            }
            out.push(119);
            out.push(97);
            out.push(110);
            out.push(116);
            out.push(32);
            push_bytes(&mut out, refs[i].hash.as_slice());
            if first {
                out.push(0);
                out.push(97);
                out.push(103);
                out.push(101);
                out.push(110);
                out.push(116);
                out.push(61);
                out.push(103);
                out.push(105);
                out.push(116);
                out.push(47);
                out.push(49);
                out.push(46);
                out.push(56);
                out.push(46);
                out.push(49);
            }
            out.push(10);
            proof {
                assert(out@ =~= prior + want_line(rv[i as int].hash, first));
                assert(prior + (want_line(rv[i as int].hash, first) + want_lines(
                    rv.skip(i as int + 1),
                    false,
                )) =~= (prior + want_line(rv[i as int].hash, first)) + want_lines(
                    rv.skip(i as int + 1),
                    false,
                ));
            }
            first = false;
        }
        i = i + 1;
    }
    proof {
        assert(rv.skip(rv.len() as int) =~= Seq::<RefV>::empty());
        assert(want_lines(Seq::<RefV>::empty(), first) =~= Seq::<u8>::empty());
        assert(out@ + Seq::<u8>::empty() =~= out@);
    }
    out.push(48);
    out.push(48);
    out.push(48);
    out.push(48);
    out.push(48);
    out.push(48);
    out.push(48);
    out.push(57);
    out.push(100);
    out.push(111);
    out.push(110);
    out.push(101);
    out.push(10);
    out.push(48);
    out.push(48);
    out.push(48);
    out.push(48);
    proof {
        assert(out@ =~= want_request(rv));
    }
    out
}

/// The acknowledgement line that must open an upload-pack response.
pub open spec fn nak_line() -> Seq<u8> {
    seq![78u8, 65u8, 75u8]
}

/// Extract the embedded pack stream from an upload-pack response: a `NAK`
/// line, then the pack as the final synthetic line.
///
/// Fails with `BadPktLine` on bad framing and `ProtocolError` when the
/// `NAK` or the pack is missing or bytes trail the stream.
pub fn parse_upload_pack_response(input: &[u8]) -> (r: Result<Vec<u8>, GitError>)
    ensures
        r matches Ok(p) ==> (pkt_lines_parse(input@) matches Some(q) && q.0 == input@.len()
            && q.1.len() == 2 && q.1[0] == nak_line() && p@ == q.1[1]),
        r is Ok <==> (pkt_lines_parse(input@) matches Some(q) && q.0 == input@.len() && q.1.len()
            == 2 && q.1[0] == nak_line()),
        r is Err ==> (r == Err::<Vec<u8>, GitError>(GitError::BadPktLine) || r == Err::<
            Vec<u8>,
            GitError,
        >(GitError::ProtocolError)),
{
    let (c, mut lines) = match parse_packet_lines(input) {
        Result::Ok(p) => p,
        Result::Err(_) => {
            return Err(GitError::BadPktLine);
        },
    };
    let nak: Vec<u8> = vec![78u8, 65u8, 75u8];
    proof {
        assert(nak@ =~= nak_line());
    }
    if !(c == input.len() && lines.len() == 2) {
        return Err(GitError::ProtocolError);
    }
    if !bytes_eq(lines[0].as_slice(), nak.as_slice()) {
        return Err(GitError::ProtocolError);
    }
    match lines.pop() {
        Option::Some(pack) => Ok(pack),
        Option::None => Err(GitError::ProtocolError),
    }
}

/// The index of the first reference named `HEAD`.
pub open spec fn head_name() -> Seq<u8> {
    seq![72u8, 69u8, 65u8, 68u8]
}

/// How many references other than `HEAD` itself point at `h`.
pub open spec fn match_count(refs: Seq<RefV>, h: Seq<u8>) -> nat
    decreases refs.len(),
{
    if refs.len() == 0 {
        0
    } else {
        match_count(refs.skip(1), h) + (if refs[0].hash == h && refs[0].name != head_name() {
            1nat
        } else {
            0nat
        })
    }
}

/// What resolving `HEAD` against the advertised references found.
#[derive(Debug, Clone, PartialEq, Eq)]
pub enum HeadResolution {
    /// Exactly one branch shares the identity of `HEAD`.
    Unique(Vec<u8>),
    /// Several references share it; the choice would be a guess.
    Ambiguous,
    /// No reference shares it.
    NoMatch,
    /// The advertisement named no `HEAD` at all.
    NoHead,
}

/// Find the first reference named `HEAD`.
fn find_head(refs: &Vec<Ref>) -> (r: Option<usize>)
    ensures
        r matches Some(ix) ==> ix < refs@.len() && refs@[ix as int]@.name == head_name(),
        r is None ==> forall|j: int| 0 <= j < refs@.len() ==> (#[trigger] refs@[j]@).name
            != head_name(),
{
    let head: Vec<u8> = vec![72u8, 69u8, 65u8, 68u8];
    proof {
        assert(head@ =~= head_name());
    }
    let mut i: usize = 0;
    while i < refs.len()
        invariant
            i <= refs@.len(),
            head@ == head_name(),
            forall|j: int| 0 <= j < i ==> (#[trigger] refs@[j]@).name != head_name(),
        decreases refs@.len() - i,
    {
        if bytes_eq(refs[i].name.as_slice(), head.as_slice()) {
            return Some(i);
        }
        i = i + 1;
    }
    None
}

/// Resolve which branch `HEAD` points at, by matching its identity.
///
/// The answer is unique when exactly one other reference shares the
/// identity; several sharers are surfaced as ambiguous rather than
/// guessed between.
pub fn select_head_target(refs: &Vec<Ref>) -> (r: HeadResolution)
    ensures
        ({
            let rv = Seq::new(refs@.len(), |k: int| refs@[k]@);
            match r {
                HeadResolution::NoHead => forall|j: int|
                    0 <= j < rv.len() ==> (#[trigger] rv[j]).name != head_name(),
                HeadResolution::Unique(name) => exists|hi: int, j: int|
                    0 <= hi < rv.len() && 0 <= j < rv.len() && (#[trigger] rv[hi]).name
                        == head_name() && match_count(rv, rv[hi].hash) == 1 && (#[trigger] rv[j]).name
                        == name@ && rv[j].hash == rv[hi].hash && rv[j].name != head_name(),
                HeadResolution::Ambiguous => exists|hi: int|
                    0 <= hi < rv.len() && (#[trigger] rv[hi]).name == head_name() && match_count(
                        rv,
                        rv[hi].hash,
                    ) >= 2,
                HeadResolution::NoMatch => exists|hi: int|
                    0 <= hi < rv.len() && (#[trigger] rv[hi]).name == head_name() && match_count(
                        rv,
                        rv[hi].hash,
                    ) == 0,
            }
        }),
{
    let ghost rv = Seq::new(refs@.len(), |k: int| refs@[k]@);
    let hi = match find_head(refs) {
        Option::Some(ix) => ix,
        Option::None => {
            return HeadResolution::NoHead;
        },
    };
    let head_hash = &refs[hi].hash;
    let head: Vec<u8> = vec![72u8, 69u8, 65u8, 68u8];
    proof {
        assert(head@ =~= head_name());
        assert(rv.skip(0) =~= rv);
    }
    let mut count: usize = 0;
    let mut found: usize = 0;
    let mut i: usize = 0;
    while i < refs.len()
        invariant
            i <= refs@.len(),
            hi < refs@.len(),
            head@ == head_name(),
            rv == Seq::new(refs@.len(), |k: int| refs@[k]@),
            head_hash@ == rv[hi as int].hash,
            count <= i,
            match_count(rv, rv[hi as int].hash) == count + match_count(
                rv.skip(i as int),
                rv[hi as int].hash,
            ),
            count > 0 ==> (found < refs@.len() && rv[found as int].hash == rv[hi as int].hash
                && rv[found as int].name != head_name()),
        decreases refs@.len() - i,
    {
        let ghost rrest = rv.skip(i as int);
        proof {
            assert(rrest[0] == rv[i as int]);
            assert(rrest.skip(1) =~= rv.skip(i as int + 1));
        }
        if bytes_eq(refs[i].hash.as_slice(), head_hash.as_slice()) && !bytes_eq(
            refs[i].name.as_slice(),
            head.as_slice(),
        ) {
            if count < usize::MAX {
                count = count + 1;
            }
            found = i;
        }
        i = i + 1;
    }
    proof {
        assert(rv.skip(rv.len() as int) =~= Seq::<RefV>::empty());
    }
    if count == 0 {
        HeadResolution::NoMatch
    } else if count == 1 {
        let name = vstd::slice::slice_to_vec(refs[found].name.as_slice());
        HeadResolution::Unique(name)
    } else {
        HeadResolution::Ambiguous
    }
}

/// The file contents of a reference: the identity and one newline.
pub fn ref_file_contents(hash: &[u8]) -> (r: Vec<u8>)
    ensures
        r@ == hash@ + seq![10u8],
{
    let mut out: Vec<u8> = Vec::new();
    push_bytes(&mut out, hash);
    out.push(10);
    assert(out@ =~= hash@ + seq![10u8]);
    out
}

/// The file contents of a symbolic `HEAD`: `ref: `, the branch name, and
/// one newline.
pub fn head_file_contents(name: &[u8]) -> (r: Vec<u8>)
    ensures
        r@ == seq![114u8, 101u8, 102u8, 58u8, 32u8] + name@ + seq![10u8],
{
    let mut out: Vec<u8> = Vec::new();
    out.push(114);
    out.push(101);
    out.push(102);
    out.push(58);
    out.push(32);
    push_bytes(&mut out, name);
    out.push(10);
    assert(out@ =~= seq![114u8, 101u8, 102u8, 58u8, 32u8] + name@ + seq![10u8]);
    out
}

} // verus!
