use vstd::prelude::*;

use crate::hexcode::{hex_of, lemma_hex_unhex, lemma_unhex_hex, unhex};
use crate::object::{
    canonical_enc, commit_payload_enc, dec_rep, kind_bytes, parent_lines_enc, payload_enc,
    tree_entry_enc, tree_payload_enc, valid_hex_id, CommitV, ObjectV, TreeEntryV,
};
use crate::objparse::{
    author_line_kw, blob_kind, canonical_parse, commit_kind, commit_parse,
    commit_tail_parse, committer_line_kw, dec_parse, find_byte, lemma_dec_exact,
    lemma_dec_rep_props, lemma_find_byte, lemma_find_byte_at, mode_wf, name_wf, parent_line_kw,
    parents_parse, starts_with, tag_kind, tree_entry_parse, tree_kind, tree_line_kw, tree_parse,
};

verus! {

/// An encoded entry at the front of any stream parses back to itself.
proof fn lemma_tree_entry_enc_parse(e: TreeEntryV, tail: Seq<u8>)
    requires
        e.wf(),
    ensures
        tree_entry_parse(tree_entry_enc(e) + tail) == Some(
            (tree_entry_enc(e).len() as int, e),
        ),
{
    let enc = tree_entry_enc(e);
    let s = enc + tail;
    let raw = unhex(e.id);
    assert(raw.len() == 20);
    let sp = e.mode.len() as int;
    assert(s[sp] == 32);
    assert forall|j: int| 0 <= j < sp implies s[j] != 32 by {
        assert(s[j] == e.mode[j]);
    }
    lemma_find_byte_at(s, 32, sp);
    assert(s.take(sp) =~= e.mode);
    assert(mode_wf(e.mode));
    let rest = s.skip(sp + 1);
    assert(rest =~= e.name + seq![0u8] + raw + tail);
    let nl = e.name.len() as int;
    assert(rest[nl] == 0);
    assert forall|j: int| 0 <= j < nl implies rest[j] != 0 by {
        assert(rest[j] == e.name[j]);
    }
    lemma_find_byte_at(rest, 0, nl);
    assert(rest.take(nl) =~= e.name);
    assert(name_wf(e.name));
    let tail2 = rest.skip(nl + 1);
    assert(tail2 =~= raw + tail);
    assert(tail2.len() >= 20);
    assert(tail2.take(20) =~= raw);
    lemma_hex_unhex(e.id);
    assert(hex_of(tail2.take(20)) == e.id);
    assert(sp + 1 + nl + 1 + 20 == enc.len());
    match tree_entry_parse(s) {
        None => {
            assert(false);
        },
        Some(ce) => {
            assert(ce.0 == enc.len());
            assert(ce.1.mode == e.mode && ce.1.name == e.name && ce.1.id == e.id);
        },
    }
}

/// A parsed entry is well formed, and what it consumed is its encoding.
#[verifier::rlimit(100)]
proof fn lemma_tree_entry_parse_exact(s: Seq<u8>)
    requires
        tree_entry_parse(s) is Some,
    ensures
        tree_entry_parse(s) matches Some(ce) && ce.1.wf() && 1 <= ce.0 <= s.len() && s.take(ce.0)
            == tree_entry_enc(ce.1),
{
    lemma_find_byte(s, 32);
    match find_byte(s, 32) {
        None => {
            assert(false);
        },
        Some(sp) => {
            let mode = s.take(sp);
            let rest = s.skip(sp + 1);
            lemma_find_byte(rest, 0);
            match find_byte(rest, 0) {
                None => {
                    assert(false);
                },
                Some(nl) => {
                    let name = rest.take(nl);
                    let tail2 = rest.skip(nl + 1);
                    let raw = tail2.take(20);
                    let e = TreeEntryV { mode: mode, name: name, id: hex_of(raw) };
                    lemma_unhex_hex(raw);
                    assert(valid_hex_id(e.id));
                    assert(e.wf());
                    let c = sp + 1 + nl + 1 + 20;
                    assert(tree_entry_parse(s) == Some((c, e)));
                    assert(c <= s.len());
                    assert(s.take(c) =~= tree_entry_enc(e)) by {
                        assert(unhex(hex_of(raw)) == raw);
                        assert forall|j: int| 0 <= j < c implies s.take(c)[j] == tree_entry_enc(
                            e,
                        )[j] by {
                            if j < sp {
                                assert(mode[j] == s[j]);
                            } else if j == sp {
                                assert(s[j] == 32);
                            } else if j < sp + 1 + nl {
                                assert(name[j - sp - 1] == rest[j - sp - 1]);
                                assert(rest[j - sp - 1] == s[j]);
                            } else if j == sp + 1 + nl {
                                assert(rest[nl] == 0);
                                assert(rest[nl] == s[j]);
                            } else {
                                assert(raw[j - (sp + 1 + nl + 1)] == tail2[j - (sp + 1 + nl + 1)]);
                                assert(tail2[j - (sp + 1 + nl + 1)] == rest[j - sp - 1]);
                                assert(rest[j - sp - 1] == s[j]);
                            }
                        }
                    }
                },
            }
        },
    }
}

/// An encoded tree payload parses back to its entries.
pub proof fn lemma_tree_enc_parse(es: Seq<TreeEntryV>)
    requires
        forall|i: int| 0 <= i < es.len() ==> (#[trigger] es[i]).wf(),
    ensures
        tree_parse(tree_payload_enc(es)) == Some(es),
    decreases es.len(),
{
    if es.len() == 0 {
        assert(tree_payload_enc(es) =~= Seq::<u8>::empty());
        assert(tree_parse(Seq::<u8>::empty()) == Some(Seq::<TreeEntryV>::empty()));
        assert(es =~= Seq::<TreeEntryV>::empty());
    } else {
        let s = tree_payload_enc(es);
        let enc0 = tree_entry_enc(es[0]);
        let rest_enc = tree_payload_enc(es.skip(1));
        assert(s == enc0 + rest_enc);
        lemma_tree_entry_enc_parse(es[0], rest_enc);
        assert(enc0.len() >= 24);
        assert(s.len() > 0);
        assert(s.skip(enc0.len() as int) =~= rest_enc);
        assert forall|i: int| 0 <= i < es.skip(1).len() implies (#[trigger] es.skip(
            1,
        )[i]).wf() by {
            assert(es.skip(1)[i] == es[i + 1]);
        }
        lemma_tree_enc_parse(es.skip(1));
        assert(tree_parse(s) == Some(seq![es[0]] + es.skip(1)));
        assert(seq![es[0]] + es.skip(1) =~= es);
    }
}

/// A parsed tree payload is well formed and encodes back to its bytes.
pub proof fn lemma_tree_parse_exact(s: Seq<u8>)
    requires
        tree_parse(s) is Some,
    ensures
        tree_parse(s) matches Some(es) && (forall|i: int|
            0 <= i < es.len() ==> (#[trigger] es[i]).wf()) && tree_payload_enc(es) == s,
    decreases s.len(),
{
    if s.len() == 0 {
        assert(tree_payload_enc(Seq::<TreeEntryV>::empty()) =~= Seq::<u8>::empty());
        assert(s =~= Seq::<u8>::empty());
    } else {
        lemma_tree_entry_parse_exact(s);
        match tree_entry_parse(s) {
            None => {
                assert(false);
            },
            Some(ce) => {
                lemma_tree_parse_exact(s.skip(ce.0));
                match tree_parse(s.skip(ce.0)) {
                    None => {
                        assert(false);
                    },
                    Some(es2) => {
                        let es = seq![ce.1] + es2;
                        assert(tree_parse(s) == Some(es));
                        assert forall|i: int| 0 <= i < es.len() implies (#[trigger] es[i]).wf() by {
                            if i == 0 {
                                assert(es[0] == ce.1);
                            } else {
                                assert(es[i] == es2[i - 1]);
                            }
                        }
                        assert(es[0] == ce.1);
                        assert(es.skip(1) =~= es2);
                        assert(tree_payload_enc(es) == tree_entry_enc(ce.1) + tree_payload_enc(
                            es2,
                        ));
                        assert(tree_payload_enc(es) =~= s.take(ce.0) + s.skip(ce.0));
                        assert(s.take(ce.0) + s.skip(ce.0) =~= s);
                    },
                }
            },
        }
    }
}

/// Encoded parent lines, before any non-parent tail, parse back exactly.
proof fn lemma_parents_enc_parse(ps: Seq<Seq<u8>>, tail: Seq<u8>)
    requires
        forall|i: int| 0 <= i < ps.len() ==> valid_hex_id(#[trigger] ps[i]),
        tail.len() == 0 || tail[0] != 112,
    ensures
        parents_parse(parent_lines_enc(ps) + tail) == Some(
            (ps, parent_lines_enc(ps).len() as int),
        ),
    decreases ps.len(),
{
    if ps.len() == 0 {
        let s = parent_lines_enc(ps) + tail;
        assert(s =~= tail);
        lemma_find_byte(tail, 10);
        match find_byte(tail, 10) {
            None => {},
            Some(i) => {
                let line = tail.take(i);
                if starts_with(line, parent_line_kw()) {
                    assert(line.take(7)[0] == parent_line_kw()[0]);
                    assert(line[0] == tail[0]);
                    assert(false);
                }
            },
        }
        assert(ps =~= Seq::<Seq<u8>>::empty());
    } else {
        let p0 = ps[0];
        let line0 = parent_line_kw() + p0 + seq![10u8];
        let rest_enc = parent_lines_enc(ps.skip(1));
        let s = parent_lines_enc(ps) + tail;
        assert(parent_lines_enc(ps) == line0 + rest_enc);
        assert(s =~= line0 + (rest_enc + tail));
        assert(s[47] == 10);
        assert forall|j: int| 0 <= j < 47 implies s[j] != 10 by {
            if j < 7 {
                assert(s[j] == parent_line_kw()[j]);
            } else {
                assert(s[j] == p0[j - 7]);
                assert(crate::hexcode::is_hex_digit_byte(p0[j - 7]));
            }
        }
        lemma_find_byte_at(s, 10, 47);
        let line = s.take(47);
        assert(line.take(7) =~= parent_line_kw());
        assert(starts_with(line, parent_line_kw()));
        assert(line.skip(7) =~= p0);
        assert(valid_hex_id(line.skip(7)));
        assert(s.skip(48) =~= rest_enc + tail);
        assert forall|i: int| 0 <= i < ps.skip(1).len() implies valid_hex_id(
            #[trigger] ps.skip(1)[i],
        ) by {
            assert(ps.skip(1)[i] == ps[i + 1]);
        }
        lemma_parents_enc_parse(ps.skip(1), tail);
        match parents_parse(s) {
            None => {
                assert(false);
            },
            Some(pc) => {
                assert(pc.0 =~= ps);
                assert(pc.1 == 48 + rest_enc.len());
            },
        }
    }
}

/// Parsed parent lines are valid and encode back to what they consumed.
proof fn lemma_parents_parse_exact(s: Seq<u8>)
    requires
        parents_parse(s) is Some,
    ensures
        parents_parse(s) matches Some(pc) && (forall|i: int|
            0 <= i < pc.0.len() ==> valid_hex_id(#[trigger] pc.0[i])) && 0 <= pc.1 <= s.len()
            && s.take(pc.1) == parent_lines_enc(pc.0),
    decreases s.len(),
{
    lemma_find_byte(s, 10);
    match find_byte(s, 10) {
        None => {
            assert(s.take(0) =~= Seq::<u8>::empty());
            assert(parent_lines_enc(Seq::<Seq<u8>>::empty()) =~= Seq::<u8>::empty());
        },
        Some(i) => {
            let line = s.take(i);
            if starts_with(line, parent_line_kw()) {
                let id = line.skip(7);
                lemma_parents_parse_exact(s.skip(i + 1));
                match parents_parse(s.skip(i + 1)) {
                    None => {
                        assert(false);
                    },
                    Some(pc2) => {
                        let ps = seq![id] + pc2.0;
                        let c = i + 1 + pc2.1;
                        assert(parents_parse(s) == Some((ps, c)));
                        assert forall|k: int| 0 <= k < ps.len() implies valid_hex_id(
                            #[trigger] ps[k],
                        ) by {
                            if k > 0 {
                                assert(ps[k] == pc2.0[k - 1]);
                            }
                        }
                        assert(ps[0] == id);
                        assert(ps.skip(1) =~= pc2.0);
                        assert(parent_lines_enc(ps) == parent_line_kw() + id + seq![10u8]
                            + parent_lines_enc(pc2.0));
                        assert(s.take(c) =~= parent_lines_enc(ps)) by {
                            assert forall|j: int| 0 <= j < c implies s.take(c)[j]
                                == parent_lines_enc(ps)[j] by {
                                if j < 7 {
                                    assert(line.take(7)[j] == parent_line_kw()[j]);
                                    assert(line[j] == s[j]);
                                } else if j < i {
                                    assert(id[j - 7] == line[j]);
                                    assert(line[j] == s[j]);
                                } else if j == i {
                                    assert(s[i] == 10);
                                } else {
                                    assert(parent_lines_enc(pc2.0)[j - i - 1] == s.skip(i + 1).take(
                                        pc2.1,
                                    )[j - i - 1]);
                                    assert(s.skip(i + 1).take(pc2.1)[j - i - 1] == s[j]);
                                }
                            }
                        }
                    },
                }
            } else {
                assert(s.take(0) =~= Seq::<u8>::empty());
                assert(parent_lines_enc(Seq::<Seq<u8>>::empty()) =~= Seq::<u8>::empty());
            }
        },
    }
}

/// The bytes of a commit payload after its tree and parent lines.
pub open spec fn commit_tail_enc(author: Seq<u8>, committer: Seq<u8>, message: Seq<u8>) -> Seq<
    u8,
> {
    author_line_kw() + author + seq![10u8] + committer_line_kw() + committer + seq![10u8]
        + seq![10u8] + message + seq![10u8]
}

/// An encoded commit tail parses back exactly.
#[verifier::rlimit(100)]
proof fn lemma_commit_tail_enc_parse(author: Seq<u8>, committer: Seq<u8>, message: Seq<u8>)
    requires
        forall|i: int| 0 <= i < author.len() ==> #[trigger] author[i] != 10,
        forall|i: int| 0 <= i < committer.len() ==> #[trigger] committer[i] != 10,
    ensures
        commit_tail_parse(commit_tail_enc(author, committer, message)) == Some(
            (author, committer, message),
        ),
{
    let s = commit_tail_enc(author, committer, message);
    let al = 7 + author.len() as int;
    assert(s[al] == 10);
    assert forall|j: int| 0 <= j < al implies s[j] != 10 by {
        if j < 7 {
            assert(s[j] == author_line_kw()[j]);
        } else {
            assert(s[j] == author[j - 7]);
        }
    }
    lemma_find_byte_at(s, 10, al);
    let aline = s.take(al);
    assert(aline.take(7) =~= author_line_kw());
    assert(starts_with(aline, author_line_kw()));
    assert(aline.skip(7) =~= author);
    let rest = s.skip(al + 1);
    assert(rest =~= committer_line_kw() + committer + seq![10u8] + seq![10u8] + message + seq![
        10u8,
    ]);
    let cm = 10 + committer.len() as int;
    assert(rest[cm] == 10);
    assert forall|j: int| 0 <= j < cm implies rest[j] != 10 by {
        if j < 10 {
            assert(rest[j] == committer_line_kw()[j]);
        } else {
            assert(rest[j] == committer[j - 10]);
        }
    }
    lemma_find_byte_at(rest, 10, cm);
    let cline = rest.take(cm);
    assert(cline.take(10) =~= committer_line_kw());
    assert(starts_with(cline, committer_line_kw()));
    assert(cline.skip(10) =~= committer);
    let rest2 = rest.skip(cm + 1);
    assert(rest2 =~= seq![10u8] + message + seq![10u8]);
    assert(rest2[0] == 10);
    let msub = rest2.skip(1);
    assert(msub =~= message + seq![10u8]);
    assert(msub[msub.len() - 1] == 10);
    assert(msub.take(msub.len() - 1) =~= message);
    match commit_tail_parse(s) {
        None => {
            assert(false);
        },
        Some(t) => {
            assert(t.0 == author && t.1 == committer && t.2 == message);
        },
    }
}

/// A parsed commit tail has newline-free header lines and encodes back to
/// its bytes.
#[verifier::rlimit(100)]
proof fn lemma_commit_tail_parse_exact(s: Seq<u8>)
    requires
        commit_tail_parse(s) is Some,
    ensures
        commit_tail_parse(s) matches Some(t) && (forall|i: int|
            0 <= i < t.0.len() ==> #[trigger] t.0[i] != 10) && (forall|i: int|
            0 <= i < t.1.len() ==> #[trigger] t.1[i] != 10) && commit_tail_enc(t.0, t.1, t.2) == s,
{
    lemma_find_byte(s, 10);
    match find_byte(s, 10) {
        None => {
            assert(false);
        },
        Some(a) => {
            let aline = s.take(a);
            let author = aline.skip(7);
            let rest = s.skip(a + 1);
            assert forall|i: int| 0 <= i < author.len() implies #[trigger] author[i] != 10 by {
                assert(author[i] == s[i + 7]);
            }
            lemma_find_byte(rest, 10);
            match find_byte(rest, 10) {
                None => {
                    assert(false);
                },
                Some(cm) => {
                    let cline = rest.take(cm);
                    let committer = cline.skip(10);
                    assert forall|i: int| 0 <= i < committer.len() implies #[trigger] committer[i]
                        != 10 by {
                        assert(committer[i] == rest[i + 10]);
                    }
                    let rest2 = rest.skip(cm + 1);
                    let msub = rest2.skip(1);
                    let message = msub.take(msub.len() - 1);
                    assert(aline =~= author_line_kw() + author);
                    assert(cline =~= committer_line_kw() + committer);
                    assert(msub =~= message + seq![10u8]);
                    assert(rest2 =~= seq![10u8] + msub);
                    assert(rest =~= cline + seq![10u8] + rest2);
                    assert(s =~= aline + seq![10u8] + rest);
                    assert(commit_tail_enc(author, committer, message) =~= s);
                },
            }
        },
    }
}

/// An encoded commit payload parses back to its fields.
#[verifier::rlimit(100)]
pub proof fn lemma_commit_enc_parse(cv: CommitV)
    requires
        cv.wf(),
    ensures
        commit_parse(commit_payload_enc(cv)) == Some(cv),
{
    let s = commit_payload_enc(cv);
    let tailenc = commit_tail_enc(cv.author, cv.committer, cv.message);
    assert(s =~= tree_line_kw() + cv.tree_id + seq![10u8] + (parent_lines_enc(cv.parents)
        + tailenc));
    assert(s[45] == 10);
    assert forall|j: int| 0 <= j < 45 implies s[j] != 10 by {
        if j < 5 {
            assert(s[j] == tree_line_kw()[j]);
        } else {
            assert(s[j] == cv.tree_id[j - 5]);
            assert(crate::hexcode::is_hex_digit_byte(cv.tree_id[j - 5]));
        }
    }
    lemma_find_byte_at(s, 10, 45);
    let line = s.take(45);
    assert(line.take(5) =~= tree_line_kw());
    assert(starts_with(line, tree_line_kw()));
    assert(line.skip(5) =~= cv.tree_id);
    let after_tree = s.skip(46);
    assert(after_tree =~= parent_lines_enc(cv.parents) + tailenc);
    assert(tailenc[0] == 97);
    lemma_parents_enc_parse(cv.parents, tailenc);
    match parents_parse(after_tree) {
        None => {
            assert(false);
        },
        Some(pc) => {
            assert(after_tree.skip(pc.1) =~= tailenc);
            lemma_commit_tail_enc_parse(cv.author, cv.committer, cv.message);
            match commit_parse(s) {
                None => {
                    assert(false);
                },
                Some(got) => {
                    assert(got == cv);
                },
            }
        },
    }
}

/// Reassemble a commit payload from its parsed parts.
#[verifier::rlimit(100)]
proof fn lemma_commit_payload_assemble(s: Seq<u8>, i: int, pc1: int, cv: CommitV)
    requires
        0 <= i < s.len(),
        s[i] == 10,
        s.take(i) == tree_line_kw() + cv.tree_id,
        0 <= pc1 <= s.skip(i + 1).len(),
        s.skip(i + 1).take(pc1) == parent_lines_enc(cv.parents),
        s.skip(i + 1).skip(pc1) == commit_tail_enc(cv.author, cv.committer, cv.message),
    ensures
        commit_payload_enc(cv) == s,
{
    let after = s.skip(i + 1);
    assert(after =~= after.take(pc1) + after.skip(pc1));
    assert(s =~= s.take(i) + seq![10u8] + after);
    assert(commit_payload_enc(cv) =~= (tree_line_kw() + cv.tree_id) + seq![10u8] + (
    parent_lines_enc(cv.parents) + commit_tail_enc(cv.author, cv.committer, cv.message)));
    assert(s.take(i) + seq![10u8] + after =~= (tree_line_kw() + cv.tree_id) + seq![10u8] + (
    parent_lines_enc(cv.parents) + commit_tail_enc(cv.author, cv.committer, cv.message)));
}

/// A parsed commit payload is well formed and encodes back to its bytes.
#[verifier::rlimit(100)]
pub proof fn lemma_commit_parse_exact(s: Seq<u8>)
    requires
        commit_parse(s) is Some,
    ensures
        commit_parse(s) matches Some(cv) && cv.wf() && commit_payload_enc(cv) == s,
{
    lemma_find_byte(s, 10);
    match find_byte(s, 10) {
        None => {
            assert(false);
        },
        Some(i) => {
            let line = s.take(i);
            let tree_id = line.skip(5);
            let after_tree = s.skip(i + 1);
            lemma_parents_parse_exact(after_tree);
            match parents_parse(after_tree) {
                None => {
                    assert(false);
                },
                Some(pc) => {
                    lemma_commit_tail_parse_exact(after_tree.skip(pc.1));
                    match commit_tail_parse(after_tree.skip(pc.1)) {
                        None => {
                            assert(false);
                        },
                        Some(t) => {
                            let cv = CommitV {
                                tree_id: tree_id,
                                parents: pc.0,
                                author: t.0,
                                committer: t.1,
                                message: t.2,
                            };
                            assert(commit_parse(s) == Some(cv));
                            assert(cv.wf());
                            assert(line =~= tree_line_kw() + tree_id);
                            lemma_commit_payload_assemble(s, i, pc.1, cv);
                        },
                    }
                },
            }
        },
    }
}

/// No byte of a kind tag is a NUL or a space.
proof fn lemma_kind_bytes_plain(o: ObjectV)
    ensures
        forall|j: int|
            0 <= j < kind_bytes(o).len() ==> #[trigger] kind_bytes(o)[j] != 0 && kind_bytes(o)[j]
                != 32,
{
}

/// Round trip, first half: parsing the canonical bytes of a well-formed
/// object gives that object back.
#[verifier::rlimit(100)]
pub proof fn lemma_canonical_round_trip(o: ObjectV)
    requires
        o.wf(),
    ensures
        canonical_parse(canonical_enc(o)) == Some(o),
{
    let kind = kind_bytes(o);
    let payload = payload_enc(o);
    let digits = dec_rep(payload.len());
    let s = canonical_enc(o);
    lemma_dec_rep_props(payload.len());
    lemma_kind_bytes_plain(o);
    let h = kind.len() as int + 1 + digits.len() as int;
    assert(s[h] == 0);
    assert forall|j: int| 0 <= j < h implies s[j] != 0 by {
        if j < kind.len() {
            assert(s[j] == kind[j]);
        } else if j == kind.len() {
            assert(s[j] == 32);
        } else {
            assert(s[j] == digits[j - kind.len() - 1]);
        }
    }
    lemma_find_byte_at(s, 0, h);
    let header = s.take(h);
    assert(s.skip(h + 1) =~= payload);
    let k = kind.len() as int;
    assert(header[k] == 32);
    assert forall|j: int| 0 <= j < k implies header[j] != 32 by {
        assert(header[j] == kind[j]);
    }
    lemma_find_byte_at(header, 32, k);
    assert(header.take(k) =~= kind);
    assert(header.skip(k + 1) =~= digits);
    assert(dec_parse(digits) == Some(payload.len() as nat));
    match o {
        ObjectV::Blob(b) => {
            assert(kind == blob_kind());
        },
        ObjectV::Tree(es) => {
            assert(kind == tree_kind());
            assert(kind != blob_kind()) by {
                assert(blob_kind()[0] == 98 && tree_kind()[0] == 116);
            }
            lemma_tree_enc_parse(es);
        },
        ObjectV::Commit(cv) => {
            assert(kind == commit_kind());
            assert(kind != blob_kind());
            assert(kind != tree_kind()) by {
                assert(tree_kind().len() == 4 && commit_kind().len() == 6);
            }
            lemma_commit_enc_parse(cv);
        },
        ObjectV::Tag(p) => {
            assert(kind == tag_kind());
            assert(kind != blob_kind());
            assert(kind != tree_kind());
            assert(kind != commit_kind());
        },
    }
}

/// Round trip, second half: whatever parses is well formed, and encoding
/// it gives back exactly the bytes that were parsed.  In particular the
/// canonical bytes of a stored object are deterministic.
#[verifier::rlimit(100)]
pub proof fn lemma_canonical_parse_exact(s: Seq<u8>)
    requires
        canonical_parse(s) is Some,
    ensures
        canonical_parse(s) matches Some(o) && o.wf() && canonical_enc(o) == s,
{
    lemma_find_byte(s, 0);
    match find_byte(s, 0) {
        None => {
            assert(false);
        },
        Some(h) => {
            let header = s.take(h);
            let payload = s.skip(h + 1);
            lemma_find_byte(header, 32);
            match find_byte(header, 32) {
                None => {
                    assert(false);
                },
                Some(k) => {
                    let kind = header.take(k);
                    let lenb = header.skip(k + 1);
                    lemma_dec_exact(lenb);
                    match dec_parse(lenb) {
                        None => {
                            assert(false);
                        },
                        Some(v) => {
                            assert(header =~= kind + seq![32u8] + lenb);
                            assert(s =~= header + seq![0u8] + payload);
                            match canonical_parse(s) {
                                None => {
                                    assert(false);
                                },
                                Some(o) => {
                                    if kind == blob_kind() {
                                        assert(o == ObjectV::Blob(payload));
                                        assert(canonical_enc(o) =~= s);
                                    } else if kind == tree_kind() {
                                        lemma_tree_parse_exact(payload);
                                        match tree_parse(payload) {
                                            None => {
                                                assert(false);
                                            },
                                            Some(es) => {
                                                assert(o == ObjectV::Tree(es));
                                                assert(payload_enc(o) == payload);
                                                assert(canonical_enc(o) =~= s);
                                            },
                                        }
                                    } else if kind == commit_kind() {
                                        lemma_commit_parse_exact(payload);
                                        match commit_parse(payload) {
                                            None => {
                                                assert(false);
                                            },
                                            Some(cv) => {
                                                assert(o == ObjectV::Commit(cv));
                                                assert(payload_enc(o) == payload);
                                                assert(canonical_enc(o) =~= s);
                                            },
                                        }
                                    } else {
                                        assert(kind == tag_kind());
                                        assert(o == ObjectV::Tag(payload));
                                        assert(canonical_enc(o) =~= s);
                                    }
                                },
                            }
                        },
                    }
                },
            }
        },
    }
}

/// The identity of a parsed object is the digest of the parsed bytes.
pub proof fn lemma_identity_of_parsed(s: Seq<u8>)
    requires
        canonical_parse(s) is Some,
    ensures
        canonical_parse(s) matches Some(o) && crate::object::identity_of(o) == hex_of(
            crate::digest::sha1_of(s),
        ),
{
    lemma_canonical_parse_exact(s);
}

/// Canonical encoding is injective on well-formed objects: two objects
/// with the same canonical bytes are the same object.
pub proof fn lemma_canonical_enc_injective(o1: ObjectV, o2: ObjectV)
    requires
        o1.wf(),
        o2.wf(),
        canonical_enc(o1) == canonical_enc(o2),
    ensures
        o1 == o2,
{
    lemma_canonical_round_trip(o1);
    lemma_canonical_round_trip(o2);
}

} // verus!
