use vstd::prelude::*;

use crate::errors::GitError;
use crate::hexcode::hex_of;
use crate::object::{
    dec_rep, valid_hex_id, Commit, CommitV, Object, ObjectV, TreeEntry, TreeEntryV,
};

verus! {

/// The index of the first occurrence of `b` in `s`, if any.
pub open spec fn find_byte(s: Seq<u8>, b: u8) -> Option<int>
    decreases s.len(),
{
    if s.len() == 0 {
        None
    } else if s[0] == b {
        Some(0int)
    } else {
        match find_byte(s.skip(1), b) {
            None => None,
            Some(i) => Some(i + 1),
        }
    }
}

/// What `find_byte` finds is the first occurrence.
pub proof fn lemma_find_byte(s: Seq<u8>, b: u8)
    ensures
        match find_byte(s, b) {
            None => forall|i: int| 0 <= i < s.len() ==> s[i] != b,
            Some(i) => 0 <= i < s.len() && s[i] == b && (forall|j: int| 0 <= j < i ==> s[j] != b),
        },
    decreases s.len(),
{
    if s.len() != 0 && s[0] != b {
        lemma_find_byte(s.skip(1), b);
        match find_byte(s.skip(1), b) {
            None => {
                assert forall|i: int| 0 <= i < s.len() implies s[i] != b by {
                    if i > 0 {
                        assert(s.skip(1)[i - 1] == s[i]);
                    }
                }
            },
            Some(i) => {
                assert(s.skip(1)[i] == s[i + 1]);
                assert forall|j: int| 0 <= j < i + 1 implies s[j] != b by {
                    if j > 0 {
                        assert(s.skip(1)[j - 1] == s[j]);
                    }
                }
            },
        }
    }
}

/// A first occurrence determines `find_byte`.
pub proof fn lemma_find_byte_at(s: Seq<u8>, b: u8, i: int)
    requires
        0 <= i < s.len(),
        s[i] == b,
        forall|j: int| 0 <= j < i ==> s[j] != b,
    ensures
        find_byte(s, b) == Some(i),
{
    lemma_find_byte(s, b);
    match find_byte(s, b) {
        None => {
            assert(false);
        },
        Some(k) => {
            if k < i {
                assert(s[k] != b);
                assert(false);
            }
            if k > i {
                assert(s[i] != b);
                assert(false);
            }
        },
    }
}

/// True when every byte of `s` is a decimal digit.
pub open spec fn all_dec_digits(s: Seq<u8>) -> bool {
    forall|i: int| 0 <= i < s.len() ==> 48 <= #[trigger] s[i] <= 57
}

/// The value of a sequence of decimal digits, most significant first.
pub open spec fn dec_value(s: Seq<u8>) -> nat
    recommends
        all_dec_digits(s),
    decreases s.len(),
{
    if s.len() == 0 {
        0
    } else {
        dec_value(s.take(s.len() - 1)) * 10 + (s[s.len() - 1] - 48) as nat
    }
}

/// A strict decimal number: non-empty digits, no leading zero.
pub open spec fn dec_parse(s: Seq<u8>) -> Option<nat> {
    if s.len() == 0 || !all_dec_digits(s) {
        None
    } else if s.len() > 1 && s[0] == 48 {
        None
    } else {
        Some(dec_value(s))
    }
}

/// True when `s` is a well-formed mode: non-empty octal digits.
pub open spec fn mode_wf(s: Seq<u8>) -> bool {
    s.len() > 0 && (forall|i: int| 0 <= i < s.len() ==> 48 <= #[trigger] s[i] <= 55)
}

/// True when `s` is a well-formed entry name: non-empty, no NUL, no slash.
pub open spec fn name_wf(s: Seq<u8>) -> bool {
    s.len() > 0 && (forall|i: int| 0 <= i < s.len() ==> #[trigger] s[i] != 0 && s[i] != 47)
}

/// Parse one tree entry from the front of `s`: the mode up to a space, the
/// name up to a NUL, then twenty raw identity bytes.  Yields the bytes
/// consumed and the entry.
pub open spec fn tree_entry_parse(s: Seq<u8>) -> Option<(int, TreeEntryV)> {
    match find_byte(s, 32) {
        None => None,
        Some(sp) => {
            if !(0 <= sp < s.len()) {
                None
            } else {
                let mode = s.take(sp);
                if !mode_wf(mode) {
                    None
                } else {
                    let rest = s.skip(sp + 1);
                    match find_byte(rest, 0) {
                        None => None,
                        Some(nl) => {
                            if !(0 <= nl < rest.len()) {
                                None
                            } else {
                                let name = rest.take(nl);
                                if !name_wf(name) {
                                    None
                                } else {
                                    let tail = rest.skip(nl + 1);
                                    if tail.len() < 20 {
                                        None
                                    } else {
                                        Some(
                                            (
                                                sp + 1 + nl + 1 + 20,
                                                TreeEntryV {
                                                    mode: mode,
                                                    name: name,
                                                    id: hex_of(tail.take(20)),
                                                },
                                            ),
                                        )
                                    }
                                }
                            }
                        },
                    }
                }
            }
        },
    }
}

/// Parse a whole tree payload: entries back to back, ending exactly at the
/// end of the payload.
pub open spec fn tree_parse(s: Seq<u8>) -> Option<Seq<TreeEntryV>>
    decreases s.len(),
{
    if s.len() == 0 {
        Some(Seq::empty())
    } else {
        match tree_entry_parse(s) {
            None => None,
            Some(ce) => {
                if 1 <= ce.0 <= s.len() {
                    match tree_parse(s.skip(ce.0)) {
                        None => None,
                        Some(es) => Some(seq![ce.1] + es),
                    }
                } else {
                    None
                }
            },
        }
    }
}

/// The keyword opening a `tree` header line, space included.
pub open spec fn tree_line_kw() -> Seq<u8> {
    seq![116u8, 114u8, 101u8, 101u8, 32u8]
}

/// The keyword opening a `parent` header line, space included.
pub open spec fn parent_line_kw() -> Seq<u8> {
    seq![112u8, 97u8, 114u8, 101u8, 110u8, 116u8, 32u8]
}

/// The keyword opening an `author` header line, space included.
pub open spec fn author_line_kw() -> Seq<u8> {
    seq![97u8, 117u8, 116u8, 104u8, 111u8, 114u8, 32u8]
}

/// The keyword opening a `committer` header line, space included.
pub open spec fn committer_line_kw() -> Seq<u8> {
    seq![99u8, 111u8, 109u8, 109u8, 105u8, 116u8, 116u8, 101u8, 114u8, 32u8]
}

/// True when `s` opens with `p`.
pub open spec fn starts_with(s: Seq<u8>, p: Seq<u8>) -> bool {
    s.len() >= p.len() && s.take(p.len() as int) == p
}

/// Parse the run of `parent` lines at the front of `s`.  Yields the parent
/// identities and the bytes consumed; the run ends at the first line that
/// is not a parent line, or when no full line remains.
pub open spec fn parents_parse(s: Seq<u8>) -> Option<(Seq<Seq<u8>>, int)>
    decreases s.len(),
{
    match find_byte(s, 10) {
        None => Some((Seq::empty(), 0int)),
        Some(i) => {
            if !(0 <= i < s.len()) {
                Some((Seq::empty(), 0int))
            } else {
                let line = s.take(i);
                if starts_with(line, parent_line_kw()) {
                    let id = line.skip(7);
                    if !valid_hex_id(id) {
                        None
                    } else {
                        match parents_parse(s.skip(i + 1)) {
                            None => None,
                            Some(pc) => Some((seq![id] + pc.0, i + 1 + pc.1)),
                        }
                    }
                } else {
                    Some((Seq::empty(), 0int))
                }
            }
        },
    }
}

/// Parse the tail of a commit payload: an `author` line, a `committer`
/// line, a blank line, then the message closed by one final newline.
pub open spec fn commit_tail_parse(s: Seq<u8>) -> Option<(Seq<u8>, Seq<u8>, Seq<u8>)> {
    match find_byte(s, 10) {
        None => None,
        Some(a) => {
            if !(0 <= a < s.len()) {
                None
            } else {
                let aline = s.take(a);
                if !starts_with(aline, author_line_kw()) {
                    None
                } else {
                    let author = aline.skip(7);
                    let rest = s.skip(a + 1);
                    match find_byte(rest, 10) {
                        None => None,
                        Some(cm) => {
                            if !(0 <= cm < rest.len()) {
                                None
                            } else {
                                let cline = rest.take(cm);
                                if !starts_with(cline, committer_line_kw()) {
                                    None
                                } else {
                                    let committer = cline.skip(10);
                                    let rest2 = rest.skip(cm + 1);
                                    if rest2.len() < 1 || rest2[0] != 10 {
                                        None
                                    } else {
                                        let m = rest2.skip(1);
                                        if m.len() < 1 || m[m.len() - 1] != 10 {
                                            None
                                        } else {
                                            Some((author, committer, m.take(m.len() - 1)))
                                        }
                                    }
                                }
                            }
                        },
                    }
                }
            }
        },
    }
}

/// Parse a commit payload: a `tree` line, `parent` lines, an `author`
/// line, a `committer` line, a blank line, then the message closed by one
/// final newline.
pub open spec fn commit_parse(s: Seq<u8>) -> Option<CommitV> {
    match find_byte(s, 10) {
        None => None,
        Some(i) => {
            if !(0 <= i < s.len()) {
                None
            } else {
                let line = s.take(i);
                if !(starts_with(line, tree_line_kw()) && valid_hex_id(line.skip(5))) {
                    None
                } else {
                    let tree_id = line.skip(5);
                    let after_tree = s.skip(i + 1);
                    match parents_parse(after_tree) {
                        None => None,
                        Some(pc) => {
                            if !(0 <= pc.1 <= after_tree.len()) {
                                None
                            } else {
                                match commit_tail_parse(after_tree.skip(pc.1)) {
                                    None => None,
                                    Some(t) => Some(
                                        CommitV {
                                            tree_id: tree_id,
                                            parents: pc.0,
                                            author: t.0,
                                            committer: t.1,
                                            message: t.2,
                                        },
                                    ),
                                }
                            }
                        },
                    }
                }
            }
        },
    }
}

/// The kind tag of a blob.
pub open spec fn blob_kind() -> Seq<u8> {
    seq![98u8, 108u8, 111u8, 98u8]
}

/// The kind tag of a tree.
pub open spec fn tree_kind() -> Seq<u8> {
    seq![116u8, 114u8, 101u8, 101u8]
}

/// The kind tag of a commit.
pub open spec fn commit_kind() -> Seq<u8> {
    seq![99u8, 111u8, 109u8, 109u8, 105u8, 116u8]
}

/// The kind tag of a tag object.
pub open spec fn tag_kind() -> Seq<u8> {
    seq![116u8, 97u8, 103u8]
}

/// Parse a whole canonical form: split the header at the first NUL, split
/// the header at its space, demand that the strict decimal length equal
/// the payload length, then dispatch on the kind.
pub open spec fn canonical_parse(s: Seq<u8>) -> Option<ObjectV> {
    match find_byte(s, 0) {
        None => None,
        Some(h) => {
            if !(0 <= h < s.len()) {
                None
            } else {
                let header = s.take(h);
                let payload = s.skip(h + 1);
                match find_byte(header, 32) {
                    None => None,
                    Some(k) => {
                        if !(0 <= k < header.len()) {
                            None
                        } else {
                            let kind = header.take(k);
                            let lenb = header.skip(k + 1);
                            match dec_parse(lenb) {
                                None => None,
                                Some(v) => {
                                    if v != payload.len() {
                                        None
                                    } else if kind == blob_kind() {
                                        Some(ObjectV::Blob(payload))
                                    } else if kind == tree_kind() {
                                        match tree_parse(payload) {
                                            None => None,
                                            Some(es) => Some(ObjectV::Tree(es)),
                                        }
                                    } else if kind == commit_kind() {
                                        match commit_parse(payload) {
                                            None => None,
                                            Some(c) => Some(ObjectV::Commit(c)),
                                        }
                                    } else if kind == tag_kind() {
                                        Some(ObjectV::Tag(payload))
                                    } else {
                                        None
                                    }
                                },
                            }
                        }
                    },
                }
            }
        },
    }
}

/// Find the first occurrence of `b` in `s` at or after `from`.
pub(crate) fn scan_for(s: &[u8], from: usize, b: u8) -> (r: Option<usize>)
    requires
        from <= s@.len(),
    ensures
        r matches Some(k) ==> from <= k < s@.len() && s@[k as int] == b && (forall|j: int|
            from <= j < k ==> s@[j] != b),
        r is None ==> forall|j: int| from <= j < s@.len() ==> s@[j] != b,
{
    let mut i: usize = from;
    while i < s.len()
        invariant
            from <= i <= s@.len(),
            forall|j: int| from <= j < i ==> s@[j] != b,
        decreases s@.len() - i,
    {
        if s[i] == b {
            return Some(i);
        }
        i = i + 1;
    }
    None
}

/// A first occurrence at an absolute index, seen from a suffix.
pub(crate) proof fn lemma_scan_find(s: Seq<u8>, from: int, b: u8, k: int)
    requires
        0 <= from <= k < s.len(),
        s[k] == b,
        forall|j: int| from <= j < k ==> s[j] != b,
    ensures
        find_byte(s.skip(from), b) == Some(k - from),
{
    let sub = s.skip(from);
    assert forall|j: int| 0 <= j < k - from implies sub[j] != b by {
        assert(sub[j] == s[from + j]);
    }
    assert(sub[k - from] == s[k]);
    lemma_find_byte_at(sub, b, k - from);
}

/// No occurrence from `from` on, seen from a suffix.
pub(crate) proof fn lemma_scan_find_none(s: Seq<u8>, from: int, b: u8)
    requires
        0 <= from <= s.len(),
        forall|j: int| from <= j < s.len() ==> s[j] != b,
    ensures
        find_byte(s.skip(from), b) is None,
{
    let sub = s.skip(from);
    lemma_find_byte(sub, b);
    match find_byte(sub, b) {
        None => {},
        Some(i) => {
            assert(sub[i] == s[from + i]);
            assert(false);
        },
    }
}

/// Report whether `s` is a well-formed mode.
fn check_mode(s: &[u8]) -> (r: bool)
    ensures
        r == mode_wf(s@),
{
    if s.len() == 0 {
        return false;
    }
    let mut i: usize = 0;
    while i < s.len()
        invariant
            i <= s@.len(),
            forall|j: int| 0 <= j < i ==> 48 <= #[trigger] s@[j] <= 55,
        decreases s@.len() - i,
    {
        let c = s[i];
        if !(48 <= c && c <= 55) {
            return false;
        }
        i = i + 1;
    }
    true
}

/// Report whether `s` is a well-formed entry name.
fn check_name(s: &[u8]) -> (r: bool)
    ensures
        r == name_wf(s@),
{
    if s.len() == 0 {
        return false;
    }
    let mut i: usize = 0;
    while i < s.len()
        invariant
            i <= s@.len(),
            forall|j: int| 0 <= j < i ==> #[trigger] s@[j] != 0 && s@[j] != 47,
        decreases s@.len() - i,
    {
        let c = s[i];
        if c == 0 || c == 47 {
            return false;
        }
        i = i + 1;
    }
    true
}

/// Report whether two byte slices hold the same bytes.
pub fn bytes_eq(a: &[u8], b: &[u8]) -> (r: bool)
    ensures
        r == (a@ == b@),
{
    if a.len() != b.len() {
        return false;
    }
    let mut i: usize = 0;
    while i < a.len()
        invariant
            a@.len() == b@.len(),
            i <= a@.len(),
            forall|j: int| 0 <= j < i ==> a@[j] == b@[j],
        decreases a@.len() - i,
    {
        if a[i] != b[i] {
            return false;
        }
        i = i + 1;
    }
    proof {
        assert(a@ =~= b@);
    }
    true
}

/// Parse a tree payload into its entries.
///
/// Succeeds exactly when the payload is a whole number of well-formed
/// entries; fails with `InvalidObject` otherwise.
#[verifier::rlimit(80)]
pub fn parse_tree_payload(payload: &[u8]) -> (r: Result<Vec<TreeEntry>, GitError>)
    ensures
        r is Ok <==> tree_parse(payload@) is Some,
        r matches Ok(es) ==> (tree_parse(payload@) matches Some(q) && es@.len() == q.len() && (
        forall|j: int| 0 <= j < q.len() ==> #[trigger] es@[j]@ == q[j])),
        r is Err ==> r == Err::<Vec<TreeEntry>, GitError>(GitError::InvalidObject),
{
    let mut pos: usize = 0;
    let mut out: Vec<TreeEntry> = Vec::new();
    proof {
        assert(payload@.skip(0) =~= payload@);
    }
    while pos < payload.len()
        invariant
            pos <= payload@.len(),
            (match tree_parse(payload@.skip(pos as int)) {
                None => tree_parse(payload@) is None,
                Some(q) => tree_parse(payload@) matches Some(fq) && fq.len() == out@.len()
                    + q.len() && (forall|j: int|
                    0 <= j < out@.len() ==> #[trigger] fq[j] == out@[j]@) && (forall|j: int|
                    0 <= j < q.len() ==> #[trigger] q[j] == fq[out@.len() + j]),
            }),
        decreases payload@.len() - pos,
    {
        let ghost rest = payload@.skip(pos as int);
        let sp = match scan_for(payload, pos, 32) {
            Option::Some(sp) => sp,
            Option::None => {
                proof {
                    lemma_scan_find_none(payload@, pos as int, 32);
                }
                return Err(GitError::InvalidObject);
            },
        };
        proof {
            lemma_scan_find(payload@, pos as int, 32, sp as int);
            assert(rest.take(sp - pos) =~= payload@.subrange(pos as int, sp as int));
        }
        let mode_part = vstd::slice::slice_subrange(payload, pos, sp);
        if !check_mode(mode_part) {
            return Err(GitError::InvalidObject);
        }
        let ghost after_mode = rest.skip(sp - pos + 1);
        proof {
            assert(after_mode =~= payload@.skip(sp as int + 1));
        }
        let nl = match scan_for(payload, sp + 1, 0) {
            Option::Some(nl) => nl,
            Option::None => {
                proof {
                    lemma_scan_find_none(payload@, sp as int + 1, 0);
                }
                return Err(GitError::InvalidObject);
            },
        };
        proof {
            lemma_scan_find(payload@, sp as int + 1, 0, nl as int);
            assert(after_mode.take(nl - sp - 1) =~= payload@.subrange(sp as int + 1, nl as int));
        }
        let name_part = vstd::slice::slice_subrange(payload, sp + 1, nl);
        if !check_name(name_part) {
            return Err(GitError::InvalidObject);
        }
        let ghost tail = after_mode.skip(nl - sp);
        proof {
            assert(tail =~= payload@.skip(nl as int + 1));
        }
        if payload.len() - nl < 21 {
            proof {
                assert(tail.len() < 20);
            }
            return Err(GitError::InvalidObject);
        }
        let raw = vstd::slice::slice_subrange(payload, nl + 1, nl + 21);
        proof {
            assert(raw@ =~= tail.take(20));
        }
        let entry = TreeEntry {
            mode: vstd::slice::slice_to_vec(mode_part),
            name: vstd::slice::slice_to_vec(name_part),
            hash: crate::hexcode::hex_encode(raw),
        };
        let ghost consumed = (sp - pos) + 1 + (nl - sp - 1) + 1 + 20;
        proof {
            assert(tree_entry_parse(rest) == Some((consumed, entry@)));
            assert(rest.skip(consumed) =~= payload@.skip(nl + 21));
        }
        let ghost prior_out = out@;
        let ghost prior_pos = pos as int;
        out.push(entry);
        pos = nl + 21;
        proof {
            match tree_parse(payload@.skip(pos as int)) {
                None => {
                    assert(tree_parse(payload@.skip(prior_pos)) is None);
                },
                Some(q2) => {
                    assert(tree_parse(payload@.skip(prior_pos)) == Some(seq![entry@] + q2));
                    match tree_parse(payload@) {
                        None => {
                            assert(false);
                        },
                        Some(fq) => {
                            assert(fq[prior_out.len() as int] == (seq![entry@] + q2)[0]);
                            assert forall|j: int| 0 <= j < out@.len() implies #[trigger] fq[j]
                                == out@[j]@ by {
                                if j < prior_out.len() {
                                    assert(fq[j] == prior_out[j]@);
                                }
                            }
                            assert forall|j: int| 0 <= j < q2.len() implies #[trigger] q2[j]
                                == fq[out@.len() + j] by {
                                assert((seq![entry@] + q2)[1 + j] == fq[prior_out.len() + (1 + j)]);
                                assert((seq![entry@] + q2)[1 + j] == q2[j]);
                            }
                        },
                    }
                },
            }
        }
    }
    proof {
        assert(payload@.skip(pos as int) =~= Seq::<u8>::empty());
        assert(tree_parse(Seq::<u8>::empty()) == Some(Seq::<TreeEntryV>::empty()));
    }
    Ok(out)
}

/// Parse the tail of a commit payload, from `pos` on: the author and
/// committer lines, the blank line, and the message.
#[verifier::rlimit(80)]
fn parse_commit_tail(payload: &[u8], pos: usize) -> (r: Result<(Vec<u8>, Vec<u8>, Vec<u8>), GitError>)
    requires
        pos <= payload@.len(),
    ensures
        r is Ok <==> commit_tail_parse(payload@.skip(pos as int)) is Some,
        r matches Ok(t) ==> commit_tail_parse(payload@.skip(pos as int)) == Some(
            (t.0@, t.1@, t.2@),
        ),
        r is Err ==> r == Err::<(Vec<u8>, Vec<u8>, Vec<u8>), GitError>(GitError::InvalidObject),
{
    let total = payload.len();
    let ghost at_author = payload@.skip(pos as int);
    let al = match scan_for(payload, pos, 10) {
        Option::Some(al) => al,
        Option::None => {
            proof {
                lemma_scan_find_none(payload@, pos as int, 10);
            }
            return Err(GitError::InvalidObject);
        },
    };
    proof {
        lemma_scan_find(payload@, pos as int, 10, al as int);
    }
    let ghost aline = at_author.take(al - pos);
    proof {
        assert(aline =~= payload@.subrange(pos as int, al as int));
    }
    if al - pos < 7 {
        proof {
            assert(!starts_with(aline, author_line_kw()));
        }
        return Err(GitError::InvalidObject);
    }
    let akw = vstd::slice::slice_subrange(payload, pos, pos + 7);
    let author_kw_lit: Vec<u8> = vec![97u8, 117u8, 116u8, 104u8, 111u8, 114u8, 32u8];
    proof {
        assert(author_kw_lit@ =~= author_line_kw());
        assert(aline.take(7) =~= payload@.subrange(pos as int, pos as int + 7));
    }
    if !bytes_eq(akw, author_kw_lit.as_slice()) {
        proof {
            assert(!starts_with(aline, author_line_kw()));
        }
        return Err(GitError::InvalidObject);
    }
    proof {
        assert(starts_with(aline, author_line_kw()));
    }
    let author_part = vstd::slice::slice_subrange(payload, pos + 7, al);
    proof {
        assert(author_part@ =~= aline.skip(7));
    }
    let cpos = al + 1;
    let ghost at_committer = at_author.skip(al + 1 - pos);
    proof {
        assert(at_committer =~= payload@.skip(cpos as int));
    }
    let cl = match scan_for(payload, cpos, 10) {
        Option::Some(cl) => cl,
        Option::None => {
            proof {
                lemma_scan_find_none(payload@, cpos as int, 10);
            }
            return Err(GitError::InvalidObject);
        },
    };
    proof {
        lemma_scan_find(payload@, cpos as int, 10, cl as int);
    }
    let ghost cline = at_committer.take(cl - cpos);
    proof {
        assert(cline =~= payload@.subrange(cpos as int, cl as int));
    }
    if cl - cpos < 10 {
        proof {
            assert(!starts_with(cline, committer_line_kw()));
        }
        return Err(GitError::InvalidObject);
    }
    let ckw = vstd::slice::slice_subrange(payload, cpos, cpos + 10);
    let committer_kw_lit: Vec<u8> = vec![
        99u8,
        111u8,
        109u8,
        109u8,
        105u8,
        116u8,
        116u8,
        101u8,
        114u8,
        32u8,
    ];
    proof {
        assert(committer_kw_lit@ =~= committer_line_kw());
        assert(cline.take(10) =~= payload@.subrange(cpos as int, cpos as int + 10));
    }
    if !bytes_eq(ckw, committer_kw_lit.as_slice()) {
        proof {
            assert(!starts_with(cline, committer_line_kw()));
        }
        return Err(GitError::InvalidObject);
    }
    proof {
        assert(starts_with(cline, committer_line_kw()));
    }
    let committer_part = vstd::slice::slice_subrange(payload, cpos + 10, cl);
    proof {
        assert(committer_part@ =~= cline.skip(10));
    }
    let bpos = cl + 1;
    let ghost at_blank = at_committer.skip(cl + 1 - cpos);
    proof {
        assert(at_blank =~= payload@.skip(bpos as int));
    }
    if bpos >= payload.len() {
        return Err(GitError::InvalidObject);
    }
    let blank = payload[bpos];
    if blank != 10 {
        return Err(GitError::InvalidObject);
    }
    let mpos = bpos + 1;
    let ghost msg_region = at_blank.skip(1);
    proof {
        assert(msg_region =~= payload@.skip(mpos as int));
    }
    if mpos >= payload.len() {
        return Err(GitError::InvalidObject);
    }
    let last = payload[payload.len() - 1];
    proof {
        assert(msg_region[msg_region.len() - 1] == payload@[payload@.len() - 1]);
    }
    if last != 10 {
        return Err(GitError::InvalidObject);
    }
    let message_part = vstd::slice::slice_subrange(payload, mpos, payload.len() - 1);
    proof {
        assert(message_part@ =~= msg_region.take(msg_region.len() - 1));
    }
    Ok((
        vstd::slice::slice_to_vec(author_part),
        vstd::slice::slice_to_vec(committer_part),
        vstd::slice::slice_to_vec(message_part),
    ))
}

/// Parse a commit payload into its fields.
///
/// Succeeds exactly when the payload has the canonical line structure;
/// fails with `InvalidObject` otherwise.
#[verifier::rlimit(80)]
pub fn parse_commit_payload(payload: &[u8]) -> (r: Result<Commit, GitError>)
    ensures
        r is Ok <==> commit_parse(payload@) is Some,
        r matches Ok(c) ==> commit_parse(payload@) == Some(c@),
        r is Err ==> r == Err::<Commit, GitError>(GitError::InvalidObject),
{
    let tl = match scan_for(payload, 0, 10) {
        Option::Some(tl) => tl,
        Option::None => {
            proof {
                lemma_scan_find_none(payload@, 0, 10);
                assert(payload@.skip(0) =~= payload@);
            }
            return Err(GitError::InvalidObject);
        },
    };
    proof {
        lemma_scan_find(payload@, 0, 10, tl as int);
        assert(payload@.skip(0) =~= payload@);
        assert(payload@.take(tl as int) =~= payload@.subrange(0, tl as int));
    }
    let ghost first_line = payload@.take(tl as int);
    if tl < 45 {
        proof {
            if starts_with(first_line, tree_line_kw()) && valid_hex_id(first_line.skip(5)) {
                assert(first_line.len() == 5 + first_line.skip(5).len());
                assert(false);
            }
        }
        return Err(GitError::InvalidObject);
    }
    let kw = vstd::slice::slice_subrange(payload, 0, 5);
    let tree_kw_lit: Vec<u8> = vec![116u8, 114u8, 101u8, 101u8, 32u8];
    proof {
        assert(tree_kw_lit@ =~= tree_line_kw());
        assert(first_line.take(5) =~= payload@.subrange(0, 5));
    }
    if !bytes_eq(kw, tree_kw_lit.as_slice()) {
        proof {
            assert(!starts_with(first_line, tree_line_kw()));
        }
        return Err(GitError::InvalidObject);
    }
    let tid = vstd::slice::slice_subrange(payload, 5, tl);
    proof {
        assert(tid@ =~= first_line.skip(5));
    }
    if !(tl == 45 && crate::hexcode::all_hex_digits(tid)) {
        proof {
            assert(!valid_hex_id(first_line.skip(5)));
        }
        return Err(GitError::InvalidObject);
    }
    proof {
        assert(valid_hex_id(first_line.skip(5)));
        assert(starts_with(first_line, tree_line_kw()));
    }
    let total = payload.len();
    let base = tl + 1;
    let ghost after_tree = payload@.skip(base as int);
    let mut pos: usize = base;
    let mut parents: Vec<Vec<u8>> = Vec::new();
    loop
        invariant
            base <= pos <= payload@.len(),
            payload@.len() <= usize::MAX,
            base == tl + 1,
            tl < payload@.len(),
            after_tree == payload@.skip(base as int),
            (commit_parse(payload@) == (match parents_parse(after_tree) {
                None => None::<CommitV>,
                Some(pc) => {
                    if !(0 <= pc.1 <= after_tree.len()) {
                        None
                    } else {
                        match commit_tail_parse(after_tree.skip(pc.1)) {
                            None => None,
                            Some(t) => Some(
                                CommitV {
                                    tree_id: first_line.skip(5),
                                    parents: pc.0,
                                    author: t.0,
                                    committer: t.1,
                                    message: t.2,
                                },
                            ),
                        }
                    }
                },
            })),
            (match parents_parse(payload@.skip(pos as int)) {
                None => parents_parse(after_tree) is None,
                Some(pc) => parents_parse(after_tree) matches Some(fpc) && fpc.0.len()
                    == parents@.len() + pc.0.len() && (forall|j: int|
                    0 <= j < parents@.len() ==> #[trigger] fpc.0[j] == parents@[j]@) && (forall|
                    j: int,
                |
                    0 <= j < pc.0.len() ==> #[trigger] pc.0[j] == fpc.0[parents@.len() + j])
                    && fpc.1 == (pos - base) + pc.1,
            }),
        ensures
            base <= pos <= payload@.len(),
            parents_parse(payload@.skip(pos as int)) == Some((Seq::<Seq<u8>>::empty(), 0int)),
            (parents_parse(after_tree) matches Some(fpc) && fpc.0.len() == parents@.len() && (
            forall|j: int| 0 <= j < parents@.len() ==> #[trigger] fpc.0[j] == parents@[j]@)
                && fpc.1 == pos - base),
        decreases payload@.len() - pos,
    {
        let ghost rest = payload@.skip(pos as int);
        let nl = match scan_for(payload, pos, 10) {
            Option::Some(nl) => nl,
            Option::None => {
                proof {
                    lemma_scan_find_none(payload@, pos as int, 10);
                    assert(parents_parse(rest) == Some((Seq::<Seq<u8>>::empty(), 0int)));
                }
                break ;
            },
        };
        proof {
            lemma_scan_find(payload@, pos as int, 10, nl as int);
        }
        let ghost line = rest.take(nl - pos);
        proof {
            assert(line =~= payload@.subrange(pos as int, nl as int));
        }
        if nl - pos < 7 {
            proof {
                assert(!starts_with(line, parent_line_kw()));
                assert(parents_parse(rest) == Some((Seq::<Seq<u8>>::empty(), 0int)));
            }
            break ;
        }
        let pkw = vstd::slice::slice_subrange(payload, pos, pos + 7);
        let parent_kw_lit: Vec<u8> = vec![112u8, 97u8, 114u8, 101u8, 110u8, 116u8, 32u8];
        proof {
            assert(parent_kw_lit@ =~= parent_line_kw());
            assert(line.take(7) =~= payload@.subrange(pos as int, pos as int + 7));
        }
        if !bytes_eq(pkw, parent_kw_lit.as_slice()) {
            proof {
                assert(!starts_with(line, parent_line_kw()));
                assert(parents_parse(rest) == Some((Seq::<Seq<u8>>::empty(), 0int)));
            }
            break ;
        }
        proof {
            assert(starts_with(line, parent_line_kw()));
        }
        let pid = vstd::slice::slice_subrange(payload, pos + 7, nl);
        proof {
            assert(pid@ =~= line.skip(7));
        }
        if !(nl - pos == 47 && crate::hexcode::all_hex_digits(pid)) {
            proof {
                assert(!valid_hex_id(line.skip(7)));
                assert(parents_parse(rest) is None);
            }
            return Err(GitError::InvalidObject);
        }
        proof {
            assert(valid_hex_id(line.skip(7)));
            assert(rest.skip(nl - pos + 1) =~= payload@.skip(nl as int + 1));
        }
        let ghost prior_parents = parents@;
        let ghost prior_pos = pos as int;
        parents.push(vstd::slice::slice_to_vec(pid));
        pos = nl + 1;
        proof {
            match parents_parse(payload@.skip(pos as int)) {
                None => {
                    assert(parents_parse(payload@.skip(prior_pos)) is None);
                },
                Some(pc2) => {
                    assert(parents_parse(payload@.skip(prior_pos)) == Some(
                        (seq![pid@] + pc2.0, (nl + 1 - prior_pos) + pc2.1),
                    ));
                    match parents_parse(after_tree) {
                        None => {
                            assert(false);
                        },
                        Some(fpc) => {
                            assert(fpc.0[prior_parents.len() as int] == (seq![pid@] + pc2.0)[0]);
                            assert forall|j: int|
                                0 <= j < parents@.len() implies #[trigger] fpc.0[j]
                                == parents@[j]@ by {
                                if j < prior_parents.len() {
                                    assert(fpc.0[j] == prior_parents[j]@);
                                }
                            }
                            assert forall|j: int|
                                0 <= j < pc2.0.len() implies #[trigger] pc2.0[j] == fpc.0[
                            parents@.len() + j] by {
                                assert((seq![pid@] + pc2.0)[1 + j] == fpc.0[prior_parents.len() + (
                                1 + j)]);
                                assert((seq![pid@] + pc2.0)[1 + j] == pc2.0[j]);
                            }
                        },
                    }
                },
            }
        }
    }
    proof {
        assert(after_tree.skip(pos - base) =~= payload@.skip(pos as int));
    }
    let tail = match parse_commit_tail(payload, pos) {
        Result::Ok(t) => t,
        Result::Err(_) => {
            return Err(GitError::InvalidObject);
        },
    };
    let commit = Commit {
        tree_hash: vstd::slice::slice_to_vec(tid),
        parents,
        author: tail.0,
        committer: tail.1,
        message: tail.2,
    };
    proof {
        match parents_parse(after_tree) {
            None => {
                assert(false);
            },
            Some(fpc) => {
                assert(commit@.parents =~= fpc.0);
                match commit_parse(payload@) {
                    None => {
                        assert(false);
                    },
                    Some(cv) => {
                        assert(cv == commit@);
                    },
                }
            },
        }
    }
    Ok(commit)
}

/// The decimal rendering of `n` is a strict decimal number with value `n`.
pub proof fn lemma_dec_rep_props(n: nat)
    ensures
        all_dec_digits(dec_rep(n)),
        dec_rep(n).len() >= 1,
        (dec_rep(n)[0] == 48 <==> n == 0),
        dec_parse(dec_rep(n)) == Some(n),
    decreases n,
{
    if n < 10 {
        let d = dec_rep(n);
        assert(d =~= seq![(48 + n) as u8]);
        assert(d.take(0) =~= Seq::<u8>::empty());
        assert(dec_value(d.take(0)) == 0);
        assert(dec_value(d) == n);
    } else {
        lemma_dec_rep_props(n / 10);
        let front = dec_rep(n / 10);
        let d = dec_rep(n);
        assert(d == front + seq![(48 + n % 10) as u8]);
        assert forall|i: int| 0 <= i < d.len() implies 48 <= #[trigger] d[i] <= 57 by {
            if i < front.len() {
                assert(d[i] == front[i]);
            }
        }
        assert(d[0] == front[0]);
        assert(d.take(d.len() - 1) =~= front);
        vstd::arithmetic::div_mod::lemma_fundamental_div_mod(n as int, 10);
        assert(dec_value(d) == dec_value(front) * 10 + (d[d.len() - 1] - 48));
        assert(dec_value(d) == n);
    }
}

/// Digits with a non-zero lead have a positive value.
proof fn lemma_dec_value_pos(s: Seq<u8>)
    requires
        all_dec_digits(s),
        s.len() >= 1,
        s[0] != 48,
    ensures
        dec_value(s) >= 1,
    decreases s.len(),
{
    if s.len() == 1 {
        assert(s.take(0) =~= Seq::<u8>::empty());
    } else {
        let front = s.take(s.len() - 1);
        assert(front[0] == s[0]);
        lemma_dec_value_pos(front);
    }
}

/// A strict decimal number is the rendering of its value.
pub proof fn lemma_dec_exact(s: Seq<u8>)
    requires
        dec_parse(s) is Some,
    ensures
        dec_parse(s) matches Some(v) && dec_rep(v) == s,
    decreases s.len(),
{
    let v = dec_value(s);
    if s.len() == 1 {
        assert(s.take(0) =~= Seq::<u8>::empty());
        assert(dec_value(s.take(0)) == 0);
        assert(v == (s[0] - 48) as nat);
        assert(dec_rep(v) =~= s);
    } else {
        let front = s.take(s.len() - 1);
        assert(front[0] == s[0]);
        assert forall|i: int| 0 <= i < front.len() implies 48 <= #[trigger] front[i] <= 57 by {
            assert(front[i] == s[i]);
        }
        assert(dec_parse(front) == Some(dec_value(front)));
        lemma_dec_exact(front);
        lemma_dec_value_pos(front);
        let vf = dec_value(front);
        let d = (s[s.len() - 1] - 48) as int;
        assert(v == vf * 10 + d);
        assert(v >= 10) by {
            assert(vf >= 1);
            assert(vf * 10 >= 10) by (nonlinear_arith)
                requires
                    vf >= 1,
            ;
        }
        vstd::arithmetic::div_mod::lemma_fundamental_div_mod_converse(
            v as int,
            10,
            vf as int,
            d,
        );
        assert(v / 10 == vf);
        assert(v % 10 == d);
        assert(dec_rep(v) == dec_rep(vf) + seq![(48 + v % 10) as u8]);
        assert(dec_rep(v) =~= s);
    }
}

/// Parse a whole canonical object form.
///
/// Succeeds exactly when the bytes are the canonical form of some object;
/// fails with `InvalidObject` otherwise.
#[verifier::rlimit(80)]
pub fn parse_canonical(input: &[u8]) -> (r: Result<Object, GitError>)
    ensures
        r is Ok <==> canonical_parse(input@) is Some,
        r matches Ok(o) ==> canonical_parse(input@) == Some(o@),
        r is Err ==> r == Err::<Object, GitError>(GitError::InvalidObject),
{
    let total = input.len();
    let h = match scan_for(input, 0, 0) {
        Option::Some(h) => h,
        Option::None => {
            proof {
                lemma_scan_find_none(input@, 0, 0);
                assert(input@.skip(0) =~= input@);
            }
            return Err(GitError::InvalidObject);
        },
    };
    proof {
        lemma_scan_find(input@, 0, 0, h as int);
        assert(input@.skip(0) =~= input@);
    }
    let header_sl = vstd::slice::slice_subrange(input, 0, h);
    proof {
        assert(header_sl@ =~= input@.take(h as int));
    }
    let payload_sl = vstd::slice::slice_subrange(input, h + 1, total);
    proof {
        assert(payload_sl@ =~= input@.skip(h as int + 1));
    }
    let k = match scan_for(header_sl, 0, 32) {
        Option::Some(k) => k,
        Option::None => {
            proof {
                lemma_scan_find_none(header_sl@, 0, 32);
                assert(header_sl@.skip(0) =~= header_sl@);
            }
            return Err(GitError::InvalidObject);
        },
    };
    proof {
        lemma_scan_find(header_sl@, 0, 32, k as int);
        assert(header_sl@.skip(0) =~= header_sl@);
    }
    let kind_sl = vstd::slice::slice_subrange(header_sl, 0, k);
    let lenb_sl = vstd::slice::slice_subrange(header_sl, k + 1, h);
    proof {
        assert(kind_sl@ =~= header_sl@.take(k as int));
        assert(lenb_sl@ =~= header_sl@.skip(k as int + 1));
    }
    let expected = crate::object::dec_bytes(payload_sl.len() as u64);
    proof {
        lemma_dec_rep_props(payload_sl@.len());
    }
    if !bytes_eq(lenb_sl, expected.as_slice()) {
        proof {
            match dec_parse(lenb_sl@) {
                None => {},
                Some(v) => {
                    if v == payload_sl@.len() {
                        lemma_dec_exact(lenb_sl@);
                        assert(false);
                    }
                },
            }
        }
        return Err(GitError::InvalidObject);
    }
    let blob_lit: Vec<u8> = vec![98u8, 108u8, 111u8, 98u8];
    let tree_lit: Vec<u8> = vec![116u8, 114u8, 101u8, 101u8];
    let commit_lit: Vec<u8> = vec![99u8, 111u8, 109u8, 109u8, 105u8, 116u8];
    let tag_lit: Vec<u8> = vec![116u8, 97u8, 103u8];
    proof {
        assert(blob_lit@ =~= blob_kind());
        assert(tree_lit@ =~= tree_kind());
        assert(commit_lit@ =~= commit_kind());
        assert(tag_lit@ =~= tag_kind());
    }
    if bytes_eq(kind_sl, blob_lit.as_slice()) {
        let o = Object::Blob(vstd::slice::slice_to_vec(payload_sl));
        return Ok(o);
    }
    if bytes_eq(kind_sl, tree_lit.as_slice()) {
        match parse_tree_payload(payload_sl) {
            Result::Ok(es) => {
                let o = Object::Tree(es);
                proof {
                    match tree_parse(payload_sl@) {
                        None => {
                            assert(false);
                        },
                        Some(q) => {
                            assert(o@ matches ObjectV::Tree(ov) && ov =~= q);
                        },
                    }
                }
                return Ok(o);
            },
            Result::Err(_) => {
                return Err(GitError::InvalidObject);
            },
        }
    }
    if bytes_eq(kind_sl, commit_lit.as_slice()) {
        match parse_commit_payload(payload_sl) {
            Result::Ok(c) => {
                let o = Object::Commit(c);
                return Ok(o);
            },
            Result::Err(_) => {
                return Err(GitError::InvalidObject);
            },
        }
    }
    if bytes_eq(kind_sl, tag_lit.as_slice()) {
        let o = Object::Tag(vstd::slice::slice_to_vec(payload_sl));
        return Ok(o);
    }
    Err(GitError::InvalidObject)
}

} // verus!
