use vstd::prelude::*;

use vstd::string::StrSliceExecFns;
use vstd::string::StringSliceAdditionalSpecFns;

use crate::digest::{sha1_digest, sha1_of};
use crate::hexcode::{hex_encode, hex_of, is_hex_seq, unhex};

verus! {

/// One entry of a tree: a mode, a name, and the identity of the target,
/// the identity held as forty lowercase hexadecimal digits.
#[derive(Debug, Clone, PartialEq, Eq)]
pub struct TreeEntry {
    pub mode: Vec<u8>,
    pub name: Vec<u8>,
    pub hash: Vec<u8>,
}

/// The mathematical value of a tree entry.
pub ghost struct TreeEntryV {
    pub mode: Seq<u8>,
    pub name: Seq<u8>,
    pub id: Seq<u8>,
}

impl View for TreeEntry {
    type V = TreeEntryV;

    open spec fn view(&self) -> TreeEntryV {
        TreeEntryV { mode: self.mode@, name: self.name@, id: self.hash@ }
    }
}

/// A commit: the tree it names, its parents in order, the author and
/// committer lines (without their leading keyword), and the message.
#[derive(Debug, Clone, PartialEq, Eq)]
pub struct Commit {
    pub tree_hash: Vec<u8>,
    pub parents: Vec<Vec<u8>>,
    pub author: Vec<u8>,
    pub committer: Vec<u8>,
    pub message: Vec<u8>,
}

/// The mathematical value of a commit.
pub ghost struct CommitV {
    pub tree_id: Seq<u8>,
    pub parents: Seq<Seq<u8>>,
    pub author: Seq<u8>,
    pub committer: Seq<u8>,
    pub message: Seq<u8>,
}

impl View for Commit {
    type V = CommitV;

    open spec fn view(&self) -> CommitV {
        CommitV {
            tree_id: self.tree_hash@,
            parents: Seq::new(self.parents@.len(), |i: int| self.parents@[i]@),
            author: self.author@,
            committer: self.committer@,
            message: self.message@,
        }
    }
}

/// An object of the store: one of the four canonical kinds.  A tag is kept
/// as its raw payload; it is parsed and re-emitted byte for byte.
#[derive(Debug, Clone, PartialEq, Eq)]
pub enum Object {
    Blob(Vec<u8>),
    Tree(Vec<TreeEntry>),
    Commit(Commit),
    Tag(Vec<u8>),
}

/// The mathematical value of an object.
pub ghost enum ObjectV {
    Blob(Seq<u8>),
    Tree(Seq<TreeEntryV>),
    Commit(CommitV),
    Tag(Seq<u8>),
}

impl View for Object {
    type V = ObjectV;

    open spec fn view(&self) -> ObjectV {
        match self {
            Object::Blob(b) => ObjectV::Blob(b@),
            Object::Tree(es) => ObjectV::Tree(Seq::new(es@.len(), |i: int| es@[i]@)),
            Object::Commit(c) => ObjectV::Commit(c@),
            Object::Tag(p) => ObjectV::Tag(p@),
        }
    }
}

/// True when `s` is a well-formed identity: forty lowercase hexadecimal
/// digits.
pub open spec fn valid_hex_id(s: Seq<u8>) -> bool {
    s.len() == 40 && is_hex_seq(s)
}

impl TreeEntryV {
    /// A well-formed entry: a non-empty octal mode, a non-empty name free
    /// of NUL and slash, and a valid identity.
    pub open spec fn wf(self) -> bool {
        &&& self.mode.len() > 0
        &&& (forall|i: int| 0 <= i < self.mode.len() ==> 48 <= #[trigger] self.mode[i] <= 55)
        &&& self.name.len() > 0
        &&& (forall|i: int|
            0 <= i < self.name.len() ==> #[trigger] self.name[i] != 0 && self.name[i] != 47)
        &&& valid_hex_id(self.id)
    }
}

impl CommitV {
    /// A well-formed commit: valid identities throughout, and header lines
    /// free of newlines.
    pub open spec fn wf(self) -> bool {
        &&& valid_hex_id(self.tree_id)
        &&& (forall|i: int| 0 <= i < self.parents.len() ==> valid_hex_id(#[trigger] self.parents[i]))
        &&& (forall|i: int| 0 <= i < self.author.len() ==> #[trigger] self.author[i] != 10)
        &&& (forall|i: int| 0 <= i < self.committer.len() ==> #[trigger] self.committer[i] != 10)
    }
}

impl ObjectV {
    /// A well-formed object: each structured kind meets its own shape.
    pub open spec fn wf(self) -> bool {
        match self {
            ObjectV::Blob(_) => true,
            ObjectV::Tree(es) => forall|i: int| 0 <= i < es.len() ==> (#[trigger] es[i]).wf(),
            ObjectV::Commit(c) => c.wf(),
            ObjectV::Tag(_) => true,
        }
    }
}

/// The canonical encoding of one tree entry: the mode, a space, the name,
/// a NUL, then the twenty raw identity bytes.
pub open spec fn tree_entry_enc(e: TreeEntryV) -> Seq<u8> {
    e.mode + seq![32u8] + e.name + seq![0u8] + unhex(e.id)
}

/// The canonical tree payload: the entries' encodings, nothing between.
pub open spec fn tree_payload_enc(es: Seq<TreeEntryV>) -> Seq<u8>
    decreases es.len(),
{
    if es.len() == 0 {
        Seq::empty()
    } else {
        tree_entry_enc(es[0]) + tree_payload_enc(es.skip(1))
    }
}

/// The `parent` lines of a commit payload, one per parent, in order.
pub open spec fn parent_lines_enc(ps: Seq<Seq<u8>>) -> Seq<u8>
    decreases ps.len(),
{
    if ps.len() == 0 {
        Seq::empty()
    } else {
        seq![112u8, 97u8, 114u8, 101u8, 110u8, 116u8, 32u8] + ps[0] + seq![10u8]
            + parent_lines_enc(ps.skip(1))
    }
}

/// The canonical commit payload: a `tree` line, the `parent` lines, an
/// `author` line, a `committer` line, a blank line, then the message and
/// one final newline.
pub open spec fn commit_payload_enc(c: CommitV) -> Seq<u8> {
    seq![116u8, 114u8, 101u8, 101u8, 32u8] + c.tree_id + seq![10u8] + parent_lines_enc(c.parents)
        + seq![97u8, 117u8, 116u8, 104u8, 111u8, 114u8, 32u8] + c.author + seq![10u8]
        + seq![99u8, 111u8, 109u8, 109u8, 105u8, 116u8, 116u8, 101u8, 114u8, 32u8] + c.committer
        + seq![10u8] + seq![10u8] + c.message + seq![10u8]
}

/// The payload of an object's canonical form.
pub open spec fn payload_enc(o: ObjectV) -> Seq<u8> {
    match o {
        ObjectV::Blob(b) => b,
        ObjectV::Tree(es) => tree_payload_enc(es),
        ObjectV::Commit(c) => commit_payload_enc(c),
        ObjectV::Tag(p) => p,
    }
}

/// The lowercase kind tag of an object.
pub open spec fn kind_bytes(o: ObjectV) -> Seq<u8> {
    match o {
        ObjectV::Blob(_) => seq![98u8, 108u8, 111u8, 98u8],
        ObjectV::Tree(_) => seq![116u8, 114u8, 101u8, 101u8],
        ObjectV::Commit(_) => seq![99u8, 111u8, 109u8, 109u8, 105u8, 116u8],
        ObjectV::Tag(_) => seq![116u8, 97u8, 103u8],
    }
}

/// The decimal digits of `n`, most significant first, no leading zeros.
pub open spec fn dec_rep(n: nat) -> Seq<u8>
    decreases n,
{
    if n < 10 {
        seq![(48 + n) as u8]
    } else {
        dec_rep(n / 10) + seq![(48 + n % 10) as u8]
    }
}

/// A kind tag, a space, the decimal payload length, a NUL, then the
/// payload: the shape of every canonical object stream.
pub open spec fn object_stream(kind: Seq<u8>, payload: Seq<u8>) -> Seq<u8> {
    kind + seq![32u8] + dec_rep(payload.len()) + seq![0u8] + payload
}

/// The full canonical form of an object.  Identity is the digest of this
/// sequence.
pub open spec fn canonical_enc(o: ObjectV) -> Seq<u8> {
    object_stream(kind_bytes(o), payload_enc(o))
}

/// The identity of an object: the digest of its canonical form, written as
/// forty lowercase hexadecimal digits.
pub open spec fn identity_of(o: ObjectV) -> Seq<u8> {
    hex_of(sha1_of(canonical_enc(o)))
}


/// The fixed display-name and address part of the author signature.
pub open spec fn author_name_part() -> Seq<u8> {
    seq![
        65u8, 117u8, 116u8, 104u8, 111u8, 114u8, 32u8, 78u8, 97u8, 109u8, 101u8, 32u8, 60u8,
        97u8, 117u8, 116u8, 104u8, 111u8, 114u8, 64u8, 101u8, 120u8, 97u8, 109u8, 112u8, 108u8,
        101u8, 46u8, 99u8, 111u8, 109u8, 62u8, 32u8,
    ]
}

/// The fixed display-name and address part of the committer signature.
pub open spec fn committer_name_part() -> Seq<u8> {
    seq![
        67u8, 111u8, 109u8, 109u8, 105u8, 116u8, 116u8, 101u8, 114u8, 32u8, 78u8, 97u8, 109u8,
        101u8, 32u8, 60u8, 99u8, 111u8, 109u8, 109u8, 105u8, 116u8, 116u8, 101u8, 114u8, 64u8,
        101u8, 120u8, 97u8, 109u8, 112u8, 108u8, 101u8, 46u8, 99u8, 111u8, 109u8, 62u8, 32u8,
    ]
}

/// The fixed timezone suffix of both signatures.
pub open spec fn timezone_part() -> Seq<u8> {
    seq![32u8, 43u8, 48u8, 48u8, 48u8, 48u8]
}

/// The author line content for a given epoch second count.
pub open spec fn author_signature(ts: nat) -> Seq<u8> {
    author_name_part() + dec_rep(ts) + timezone_part()
}

/// The committer line content for a given epoch second count.
pub open spec fn committer_signature(ts: nat) -> Seq<u8> {
    committer_name_part() + dec_rep(ts) + timezone_part()
}

/// A signature line never holds a newline.
pub proof fn lemma_signature_no_newline(ts: nat)
    ensures
        forall|i: int|
            0 <= i < author_signature(ts).len() ==> #[trigger] author_signature(ts)[i] != 10,
        forall|i: int|
            0 <= i < committer_signature(ts).len() ==> #[trigger] committer_signature(ts)[i]
                != 10,
{
    crate::objparse::lemma_dec_rep_props(ts);
    let d = dec_rep(ts);
    assert forall|i: int| 0 <= i < author_signature(ts).len() implies #[trigger] author_signature(
        ts,
    )[i] != 10 by {
        if 33 <= i < 33 + d.len() {
            assert(author_signature(ts)[i] == d[i - 33]);
        }
    }
    assert forall|i: int|
        0 <= i < committer_signature(ts).len() implies #[trigger] committer_signature(ts)[i]
        != 10 by {
        if 39 <= i < 39 + d.len() {
            assert(committer_signature(ts)[i] == d[i - 39]);
        }
    }
}

/// Append a byte slice to a vector.
pub fn push_bytes(out: &mut Vec<u8>, s: &[u8])
    ensures
        final(out)@ == old(out)@ + s@,
{
    let mut i: usize = 0;
    while i < s.len()
        invariant
            i <= s@.len(),
            out@ == old(out)@ + s@.take(i as int),
        decreases s@.len() - i,
    {
        out.push(s[i]);
        proof {
            assert(old(out)@ + s@.take(i + 1) =~= (old(out)@ + s@.take(i as int)).push(
                s@[i as int],
            ));
        }
        i = i + 1;
    }
    proof {
        assert(s@.take(s@.len() as int) =~= s@);
    }
}

/// The decimal digits of `n`, most significant first.
pub fn dec_bytes(n: u64) -> (r: Vec<u8>)
    ensures
        r@ == dec_rep(n as nat),
    decreases n,
{
    if n < 10 {
        let mut out: Vec<u8> = Vec::new();
        out.push(48 + n as u8);
        assert(out@ =~= dec_rep(n as nat));
        out
    } else {
        let mut out = dec_bytes(n / 10);
        out.push(48 + (n % 10) as u8);
        assert(out@ =~= dec_rep(n as nat));
        out
    }
}

/// Prefixes of a tree payload: one more entry appends that entry's bytes.
pub proof fn lemma_tree_payload_take(es: Seq<TreeEntryV>, i: int)
    requires
        0 <= i < es.len(),
    ensures
        tree_payload_enc(es.take(i + 1)) == tree_payload_enc(es.take(i)) + tree_entry_enc(es[i]),
    decreases i,
{
    if i == 0 {
        assert(es.take(1)[0] == es[0]);
        assert(es.take(1).skip(1) =~= Seq::<TreeEntryV>::empty());
        assert(es.take(0) =~= Seq::<TreeEntryV>::empty());
        assert(tree_payload_enc(Seq::<TreeEntryV>::empty()) == Seq::<u8>::empty());
        assert(tree_payload_enc(es.take(1)) == tree_entry_enc(es[0])
            + Seq::<u8>::empty());
        assert(tree_entry_enc(es[0]) + Seq::<u8>::empty() =~= tree_entry_enc(es[0]));
        assert(Seq::<u8>::empty() + tree_entry_enc(es[0]) =~= tree_entry_enc(es[0]));
    } else {
        let t = es.skip(1);
        lemma_tree_payload_take(t, i - 1);
        assert(es.take(i + 1).skip(1) =~= t.take(i));
        assert(es.take(i).skip(1) =~= t.take(i - 1));
        assert(es.take(i + 1)[0] == es[0]);
        assert(es.take(i)[0] == es[0]);
        assert(t[i - 1] == es[i]);
        assert(tree_payload_enc(es.take(i + 1)) == tree_entry_enc(es[0]) + tree_payload_enc(
            t.take(i),
        ));
        assert(tree_payload_enc(es.take(i)) == tree_entry_enc(es[0]) + tree_payload_enc(
            t.take(i - 1),
        ));
        assert(tree_entry_enc(es[0]) + (tree_payload_enc(t.take(i - 1)) + tree_entry_enc(es[i]))
            =~= (tree_entry_enc(es[0]) + tree_payload_enc(t.take(i - 1))) + tree_entry_enc(es[i]));
    }
}

/// Prefixes of the parent lines: one more parent appends that line.
pub proof fn lemma_parent_lines_take(ps: Seq<Seq<u8>>, i: int)
    requires
        0 <= i < ps.len(),
    ensures
        parent_lines_enc(ps.take(i + 1)) == parent_lines_enc(ps.take(i)) + (
        seq![112u8, 97u8, 114u8, 101u8, 110u8, 116u8, 32u8] + ps[i] + seq![10u8]),
    decreases i,
{
    let line = seq![112u8, 97u8, 114u8, 101u8, 110u8, 116u8, 32u8] + ps[i] + seq![10u8];
    if i == 0 {
        assert(ps.take(1)[0] == ps[0]);
        assert(ps.take(1).skip(1) =~= Seq::<Seq<u8>>::empty());
        assert(ps.take(0) =~= Seq::<Seq<u8>>::empty());
        assert(parent_lines_enc(Seq::<Seq<u8>>::empty()) == Seq::<u8>::empty());
        assert(parent_lines_enc(ps.take(1)) == line + Seq::<u8>::empty());
        assert(line + Seq::<u8>::empty() =~= line);
        assert(Seq::<u8>::empty() + line =~= line);
    } else {
        let t = ps.skip(1);
        lemma_parent_lines_take(t, i - 1);
        let line0 = seq![112u8, 97u8, 114u8, 101u8, 110u8, 116u8, 32u8] + ps[0] + seq![10u8];
        assert(ps.take(i + 1).skip(1) =~= t.take(i));
        assert(ps.take(i).skip(1) =~= t.take(i - 1));
        assert(ps.take(i + 1)[0] == ps[0]);
        assert(ps.take(i)[0] == ps[0]);
        assert(t[i - 1] == ps[i]);
        assert(parent_lines_enc(ps.take(i + 1)) == line0 + parent_lines_enc(t.take(i)));
        assert(parent_lines_enc(ps.take(i)) == line0 + parent_lines_enc(t.take(i - 1)));
        assert(line0 + (parent_lines_enc(t.take(i - 1)) + line) =~= (line0 + parent_lines_enc(
            t.take(i - 1),
        )) + line);
    }
}

impl TreeEntry {
    /// The canonical encoding of this entry.
    pub fn encode(&self) -> (r: Vec<u8>)
        requires
            self@.wf(),
        ensures
            r@ == tree_entry_enc(self@),
    {
        let mut out: Vec<u8> = Vec::new();
        push_bytes(&mut out, self.mode.as_slice());
        out.push(32);
        push_bytes(&mut out, self.name.as_slice());
        out.push(0);
        let raw = match crate::hexcode::hex_decode(self.hash.as_slice()) {
            Option::Some(raw) => raw,
            Option::None => {
                proof {
                    assert(false);
                }
                Vec::new()
            },
        };
        push_bytes(&mut out, raw.as_slice());
        assert(out@ =~= tree_entry_enc(self@));
        out
    }

    /// The length of this entry's canonical encoding.
    pub fn encoded_len(&self) -> (r: usize)
        requires
            self@.wf(),
            self@.mode.len() + self@.name.len() + 22 <= usize::MAX,
        ensures
            r == tree_entry_enc(self@).len(),
    {
        self.mode.len() + 1 + self.name.len() + 1 + 20
    }
}

impl Object {

    /// Build a commit object of the given tree, optional parent and
    /// message.
    pub fn new_commit(tree_hash: &str, parent_hash: Option<&str>, message: &str) -> (r: Object)
        requires
            valid_hex_id(tree_hash.spec_bytes()),
            parent_hash matches Some(p) ==> valid_hex_id(p.spec_bytes()),
        ensures
            r@.wf(),
            (r@ matches ObjectV::Commit(c) && c.tree_id == tree_hash.spec_bytes() && (
            match parent_hash {
                Option::None => c.parents == Seq::<Seq<u8>>::empty(),
                Option::Some(p) => c.parents == seq![p.spec_bytes()],
            }) && c.message == message.spec_bytes()),
    {
        Object::Commit(Commit::new(tree_hash, parent_hash, message))
    }

    /// The payload of this object's canonical form.
    pub fn payload_bytes(&self) -> (r: Vec<u8>)
        requires
            self@.wf(),
        ensures
            r@ == payload_enc(self@),
    {
        match self {
            Object::Blob(b) => {
                let mut out: Vec<u8> = Vec::new();
                push_bytes(&mut out, b.as_slice());
                assert(out@ =~= payload_enc(self@));
                out
            },
            Object::Tree(es) => {
                let mut out: Vec<u8> = Vec::new();
                let ghost esv = Seq::new(es@.len(), |i: int| es@[i]@);
                let mut i: usize = 0;
                proof {
                    assert(esv.take(0) =~= Seq::<TreeEntryV>::empty());
                    assert(tree_payload_enc(Seq::<TreeEntryV>::empty()) == Seq::<u8>::empty());
                    assert(ObjectV::Tree(esv) == self@);
                    assert(ObjectV::Tree(esv).wf());
                    assert forall|k: int| 0 <= k < esv.len() implies (#[trigger] esv[k]).wf() by {
                        let whole = ObjectV::Tree(esv);
                        assert(whole.wf());
                        assert(whole->Tree_0 == esv);
                        assert((whole->Tree_0)[k].wf());
                    }
                }
                while i < es.len()
                    invariant
                        i <= es@.len(),
                        esv == Seq::new(es@.len(), |k: int| es@[k]@),
                        forall|k: int| 0 <= k < es@.len() ==> (#[trigger] esv[k]).wf(),
                        out@ == tree_payload_enc(esv.take(i as int)),
                    decreases es@.len() - i,
                {
                    proof {
                        assert(esv[i as int] == es@[i as int]@);
                    }
                    let entry_bytes = es[i].encode();
                    push_bytes(&mut out, entry_bytes.as_slice());
                    proof {
                        lemma_tree_payload_take(esv, i as int);
                    }
                    i = i + 1;
                }
                proof {
                    assert(esv.take(es@.len() as int) =~= esv);
                }
                out
            },
            Object::Commit(c) => c.encode(),
            Object::Tag(p) => {
                let mut out: Vec<u8> = Vec::new();
                push_bytes(&mut out, p.as_slice());
                assert(out@ =~= payload_enc(self@));
                out
            },
        }
    }

    /// The header of this object's canonical form: the kind, a space, and
    /// the decimal payload length.
    pub fn header(&self) -> (r: Vec<u8>)
        requires
            self@.wf(),
        ensures
            r@ == kind_bytes(self@) + seq![32u8] + dec_rep(payload_enc(self@).len()),
    {
        let payload = self.payload_bytes();
        let mut out: Vec<u8> = Vec::new();
        match self {
            Object::Blob(_) => {
                out.push(98);
                out.push(108);
                out.push(111);
                out.push(98);
            },
            Object::Tree(_) => {
                out.push(116);
                out.push(114);
                out.push(101);
                out.push(101);
            },
            Object::Commit(_) => {
                out.push(99);
                out.push(111);
                out.push(109);
                out.push(109);
                out.push(105);
                out.push(116);
            },
            Object::Tag(_) => {
                out.push(116);
                out.push(97);
                out.push(103);
            },
        }
        out.push(32);
        let digits = dec_bytes(payload.len() as u64);
        push_bytes(&mut out, digits.as_slice());
        assert(out@ =~= kind_bytes(self@) + seq![32u8] + dec_rep(payload_enc(self@).len()));
        out
    }

    /// The whole canonical form: header, NUL, payload.
    pub fn canonical_bytes(&self) -> (r: Vec<u8>)
        requires
            self@.wf(),
        ensures
            r@ == canonical_enc(self@),
    {
        let mut out = self.header();
        out.push(0);
        let payload = self.payload_bytes();
        push_bytes(&mut out, payload.as_slice());
        assert(out@ =~= canonical_enc(self@));
        out
    }

    /// The identity of this object: the digest of its canonical form as
    /// forty lowercase hexadecimal digits.
    pub fn hash(&self) -> (r: Vec<u8>)
        requires
            self@.wf(),
        ensures
            r@ == identity_of(self@),
            valid_hex_id(r@),
    {
        let canon = self.canonical_bytes();
        let raw = sha1_digest(canon.as_slice());
        let hex = hex_encode(raw.as_slice());
        hex
    }
}

impl Commit {

    /// Build a commit of the given tree, optional parent and message,
    /// signed with the fixed author and committer and the clock's time.
    pub fn new(tree_hash: &str, parent_hash: Option<&str>, message: &str) -> (r: Commit)
        requires
            valid_hex_id(tree_hash.spec_bytes()),
            parent_hash matches Some(p) ==> valid_hex_id(p.spec_bytes()),
        ensures
            r@.wf(),
            r@.tree_id == tree_hash.spec_bytes(),
            (match parent_hash {
                Option::None => r@.parents == Seq::<Seq<u8>>::empty(),
                Option::Some(p) => r@.parents == seq![p.spec_bytes()],
            }),
            r@.message == message.spec_bytes(),
            exists|ts: nat|
                r@.author == author_signature(ts) && r@.committer == #[trigger] committer_signature(
                    ts,
                ),
    {
        let ts = crate::clock::unix_time_seconds();
        let digits = dec_bytes(ts);
        let mut author: Vec<u8> = Vec::new();
        push_bytes_literal_author(&mut author);
        push_bytes(&mut author, digits.as_slice());
        push_timezone(&mut author);
        let mut committer: Vec<u8> = Vec::new();
        push_bytes_literal_committer(&mut committer);
        push_bytes(&mut committer, digits.as_slice());
        push_timezone(&mut committer);
        let mut parents: Vec<Vec<u8>> = Vec::new();
        match parent_hash {
            Option::Some(p) => {
                parents.push(p.as_bytes_vec());
            },
            Option::None => {},
        }
        let r = Commit {
            tree_hash: tree_hash.as_bytes_vec(),
            parents,
            author,
            committer,
            message: message.as_bytes_vec(),
        };
        proof {
            assert(r@.author =~= author_signature(ts as nat));
            assert(r@.committer =~= committer_signature(ts as nat));
            lemma_signature_no_newline(ts as nat);
            match parent_hash {
                Option::None => {
                    assert(r@.parents =~= Seq::<Seq<u8>>::empty());
                },
                Option::Some(p) => {
                    assert(r@.parents =~= seq![p.spec_bytes()]);
                },
            }
            assert(r@.wf());
        }
        r
    }

    /// The canonical payload of this commit.
    pub fn encode(&self) -> (r: Vec<u8>)
        requires
            self@.wf(),
        ensures
            r@ == commit_payload_enc(self@),
    {
        let mut out: Vec<u8> = Vec::new();
        out.push(116);
        out.push(114);
        out.push(101);
        out.push(101);
        out.push(32);
        push_bytes(&mut out, self.tree_hash.as_slice());
        out.push(10);
        let ghost psv = self@.parents;
        let mut i: usize = 0;
        let ghost lead = seq![116u8, 114u8, 101u8, 101u8, 32u8] + self@.tree_id + seq![10u8];
        proof {
            assert(psv.take(0) =~= Seq::<Seq<u8>>::empty());
            assert(out@ =~= lead + parent_lines_enc(psv.take(0)));
        }
        while i < self.parents.len()
            invariant
                i <= self.parents@.len(),
                psv == self@.parents,
                psv.len() == self.parents@.len(),
                forall|k: int| 0 <= k < psv.len() ==> #[trigger] psv[k] == self.parents@[k]@,
                out@ == lead + parent_lines_enc(psv.take(i as int)),
            decreases self.parents@.len() - i,
        {
            out.push(112);
            out.push(97);
            out.push(114);
            out.push(101);
            out.push(110);
            out.push(116);
            out.push(32);
            let parent_id = &self.parents[i];
            push_bytes(&mut out, parent_id.as_slice());
            out.push(10);
            proof {
                lemma_parent_lines_take(psv, i as int);
                assert(out@ =~= lead + parent_lines_enc(psv.take(i + 1)));
            }
            i = i + 1;
        }
        proof {
            assert(psv.take(psv.len() as int) =~= psv);
        }
        out.push(97);
        out.push(117);
        out.push(116);
        out.push(104);
        out.push(111);
        out.push(114);
        out.push(32);
        push_bytes(&mut out, self.author.as_slice());
        out.push(10);
        out.push(99);
        out.push(111);
        out.push(109);
        out.push(109);
        out.push(105);
        out.push(116);
        out.push(116);
        out.push(101);
        out.push(114);
        out.push(32);
        push_bytes(&mut out, self.committer.as_slice());
        out.push(10);
        out.push(10);
        push_bytes(&mut out, self.message.as_slice());
        out.push(10);
        assert(out@ =~= commit_payload_enc(self@));
        out
    }

    /// The length of this commit's canonical payload.
    pub fn encoded_len(&self) -> (r: usize)
        requires
            self@.wf(),
        ensures
            r == commit_payload_enc(self@).len(),
    {
        self.encode().len()
    }
}

/// Append the fixed author name part.
fn push_bytes_literal_author(out: &mut Vec<u8>)
    ensures
        final(out)@ == old(out)@ + author_name_part(),
{
    let lit: Vec<u8> = vec![
        65u8, 117u8, 116u8, 104u8, 111u8, 114u8, 32u8, 78u8, 97u8, 109u8, 101u8, 32u8, 60u8,
        97u8, 117u8, 116u8, 104u8, 111u8, 114u8, 64u8, 101u8, 120u8, 97u8, 109u8, 112u8, 108u8,
        101u8, 46u8, 99u8, 111u8, 109u8, 62u8, 32u8,
    ];
    proof {
        assert(lit@ =~= author_name_part());
    }
    push_bytes(out, lit.as_slice());
}

/// Append the fixed committer name part.
fn push_bytes_literal_committer(out: &mut Vec<u8>)
    ensures
        final(out)@ == old(out)@ + committer_name_part(),
{
    let lit: Vec<u8> = vec![
        67u8, 111u8, 109u8, 109u8, 105u8, 116u8, 116u8, 101u8, 114u8, 32u8, 78u8, 97u8, 109u8,
        101u8, 32u8, 60u8, 99u8, 111u8, 109u8, 109u8, 105u8, 116u8, 116u8, 101u8, 114u8, 64u8,
        101u8, 120u8, 97u8, 109u8, 112u8, 108u8, 101u8, 46u8, 99u8, 111u8, 109u8, 62u8, 32u8,
    ];
    proof {
        assert(lit@ =~= committer_name_part());
    }
    push_bytes(out, lit.as_slice());
}

/// Append the fixed timezone suffix.
fn push_timezone(out: &mut Vec<u8>)
    ensures
        final(out)@ == old(out)@ + timezone_part(),
{
    let lit: Vec<u8> = vec![32u8, 43u8, 48u8, 48u8, 48u8, 48u8];
    proof {
        assert(lit@ =~= timezone_part());
    }
    push_bytes(out, lit.as_slice());
}

} // verus!
