use vstd::prelude::*;

use crate::errors::GitError;
use crate::object::{canonical_enc, identity_of, push_bytes, valid_hex_id, Object, TreeEntry, TreeEntryV};
use crate::objparse::canonical_parse;
use crate::zlib::{zlib_compress, zlib_decompress, zlib_inflate};

verus! {

/// The bytes of the store prefix `.git/objects/`.
pub open spec fn objects_dir_prefix() -> Seq<u8> {
    seq![46u8, 103u8, 105u8, 116u8, 47u8, 111u8, 98u8, 106u8, 101u8, 99u8, 116u8, 115u8, 47u8]
}

/// The fan-out path of an identity: `.git/objects/` then the first two hex
/// digits, a slash, and the remaining thirty-eight.
pub open spec fn loose_path(id: Seq<u8>) -> Seq<u8> {
    objects_dir_prefix() + id.take(2) + seq![47u8] + id.skip(2)
}

/// Two identities with the same fan-out path are the same identity.
pub proof fn lemma_loose_path_injective(a: Seq<u8>, b: Seq<u8>)
    requires
        a.len() == 40,
        b.len() == 40,
        loose_path(a) == loose_path(b),
    ensures
        a == b,
{
    let pa = loose_path(a);
    let pb = loose_path(b);
    assert forall|i: int| 0 <= i < 40 implies a[i] == b[i] by {
        if i < 2 {
            assert(pa[13 + i] == a[i]);
            assert(pb[13 + i] == b[i]);
        } else {
            assert(pa[14 + i] == a[i]);
            assert(pb[14 + i] == b[i]);
        }
    }
    assert(a =~= b);
}

/// Identical canonical bytes go to one identity and one path: content
/// addressing at the level the store can decide.
pub proof fn lemma_content_addressed(o1: crate::object::ObjectV, o2: crate::object::ObjectV)
    requires
        canonical_enc(o1) == canonical_enc(o2),
    ensures
        identity_of(o1) == identity_of(o2),
        loose_path(identity_of(o1)) == loose_path(identity_of(o2)),
{
}

/// The fan-out path of an identity, as path bytes.
pub fn object_path(hash: &[u8]) -> (r: Vec<u8>)
    requires
        valid_hex_id(hash@),
    ensures
        r@ == loose_path(hash@),
{
    let mut out: Vec<u8> = Vec::new();
    out.push(46);
    out.push(103);
    out.push(105);
    out.push(116);
    out.push(47);
    out.push(111);
    out.push(98);
    out.push(106);
    out.push(101);
    out.push(99);
    out.push(116);
    out.push(115);
    out.push(47);
    out.push(hash[0]);
    out.push(hash[1]);
    out.push(47);
    let rest = vstd::slice::slice_subrange(hash, 2, 40);
    push_bytes(&mut out, rest);
    proof {
        assert(hash@.take(2) =~= seq![hash@[0], hash@[1]]);
        assert(rest@ =~= hash@.skip(2));
        assert(out@ =~= loose_path(hash@));
    }
    out
}

/// The zlib-compressed canonical form of an object: what a loose-object
/// file holds.
pub fn encode_loose(o: &Object) -> (r: Vec<u8>)
    requires
        o@.wf(),
    ensures
        zlib_inflate(r@) == Some((canonical_enc(o@), r@.len() as nat)),
{
    let canon = o.canonical_bytes();
    zlib_compress(canon.as_slice())
}

/// Decode a loose-object file: decompress, then parse the canonical form.
///
/// Fails with `CorruptObject` exactly when the zlib stream or the
/// canonical form is bad.
pub fn decode_loose(compressed: &[u8]) -> (r: Result<Object, GitError>)
    ensures
        r matches Ok(o) ==> (zlib_inflate(compressed@) matches Some(p) && canonical_parse(p.0)
            == Some(o@)),
        r is Ok <==> (zlib_inflate(compressed@) matches Some(p) && canonical_parse(p.0) is Some),
        r is Err ==> r == Err::<Object, GitError>(GitError::CorruptObject),
{
    let content = match zlib_decompress(compressed) {
        Option::Some(p) => p.0,
        Option::None => {
            return Err(GitError::CorruptObject);
        },
    };
    match crate::objparse::parse_canonical(content.as_slice()) {
        Result::Ok(o) => Ok(o),
        Result::Err(_) => Err(GitError::CorruptObject),
    }
}

/// Read an object back under a requested identity, checking that the
/// stored bytes hash to that identity; the check is mandatory.
pub fn get_object(compressed: &[u8], id: &[u8]) -> (r: Result<Object, GitError>)
    ensures
        r matches Ok(o) ==> (zlib_inflate(compressed@) matches Some(p) && canonical_parse(p.0)
            == Some(o@) && identity_of(o@) == id@),
        r is Ok <==> (zlib_inflate(compressed@) matches Some(p) && canonical_parse(p.0)
            matches Some(ov) && identity_of(ov) == id@),
        r is Err ==> r == Err::<Object, GitError>(GitError::CorruptObject),
{
    let o = match decode_loose(compressed) {
        Result::Ok(o) => o,
        Result::Err(_) => {
            return Err(GitError::CorruptObject);
        },
    };
    proof {
        match zlib_inflate(compressed@) {
            Some(p) => {
                crate::objlaws::lemma_canonical_parse_exact(p.0);
            },
            None => {
                assert(false);
            },
        }
    }
    let got = o.hash();
    if crate::objparse::bytes_eq(got.as_slice(), id) {
        Ok(o)
    } else {
        Err(GitError::CorruptObject)
    }
}


/// The loose-object file bytes for one resolved pack record: the zlib
/// stream of its canonical form.
pub fn record_loose_bytes(kind: crate::pack::PackedObjectType, payload: &[u8]) -> (r: Vec<u8>)
    requires
        crate::pack::is_base_kind(kind),
    ensures
        zlib_inflate(r@) == Some(
            (
                crate::object::object_stream(crate::pack::kind_tag(kind), payload@),
                r@.len() as nat,
            ),
        ),
{
    let stream = crate::pack::build_object_stream(kind, payload);
    zlib_compress(stream.as_slice())
}

/// The ordering key of a tree entry: its name, with a trailing slash when
/// the entry is a subtree (mode `40000`).
pub open spec fn entry_key(e: TreeEntryV) -> Seq<u8> {
    if e.mode == seq![52u8, 48u8, 48u8, 48u8, 48u8] {
        e.name + seq![47u8]
    } else {
        e.name
    }
}

/// Strict byte-lexicographic order.
pub open spec fn bytes_lt(a: Seq<u8>, b: Seq<u8>) -> bool
    decreases a.len(),
{
    if b.len() == 0 {
        false
    } else if a.len() == 0 {
        true
    } else if a[0] < b[0] {
        true
    } else if a[0] > b[0] {
        false
    } else {
        bytes_lt(a.skip(1), b.skip(1))
    }
}

/// Strict order of a tree's entries under the directory tie-break.
pub open spec fn tree_sorted(es: Seq<TreeEntryV>) -> bool {
    forall|i: int, j: int|
        0 <= i < j < es.len() ==> bytes_lt(entry_key(#[trigger] es[i]), entry_key(#[trigger] es[j]))
}

/// The byte order is transitive.
pub proof fn lemma_bytes_lt_trans(a: Seq<u8>, b: Seq<u8>, c: Seq<u8>)
    requires
        bytes_lt(a, b),
        bytes_lt(b, c),
    ensures
        bytes_lt(a, c),
    decreases a.len(),
{
    if a.len() != 0 && b.len() != 0 && c.len() != 0 {
        if a[0] == b[0] && b[0] == c[0] {
            lemma_bytes_lt_trans(a.skip(1), b.skip(1), c.skip(1));
        }
    }
}

/// The byte order is connex: incomparable sequences are equal.
pub proof fn lemma_bytes_lt_connex(a: Seq<u8>, b: Seq<u8>)
    requires
        !bytes_lt(a, b),
        !bytes_lt(b, a),
    ensures
        a == b,
    decreases a.len(),
{
    if a.len() == 0 || b.len() == 0 {
        assert(a =~= b);
    } else {
        lemma_bytes_lt_connex(a.skip(1), b.skip(1));
        assert(a =~= seq![a[0]] + a.skip(1));
        assert(b =~= seq![b[0]] + b.skip(1));
    }
}

/// Compare two byte strings in strict lexicographic order.
pub fn bytes_less(a: &[u8], b: &[u8]) -> (r: bool)
    ensures
        r == bytes_lt(a@, b@),
{
    let mut i: usize = 0;
    proof {
        assert(a@.skip(0) =~= a@);
        assert(b@.skip(0) =~= b@);
    }
    loop
        invariant
            i <= a@.len(),
            i <= b@.len(),
            bytes_lt(a@, b@) == bytes_lt(a@.skip(i as int), b@.skip(i as int)),
        decreases a@.len() - i,
    {
        proof {
            let ra = a@.skip(i as int);
            let rb = b@.skip(i as int);
            if i < a@.len() && i < b@.len() {
                assert(ra[0] == a@[i as int]);
                assert(rb[0] == b@[i as int]);
                assert(ra.skip(1) =~= a@.skip(i as int + 1));
                assert(rb.skip(1) =~= b@.skip(i as int + 1));
            }
        }
        if i >= b.len() {
            return false;
        }
        if i >= a.len() {
            return true;
        }
        let x = a[i];
        let y = b[i];
        if x < y {
            return true;
        }
        if x > y {
            return false;
        }
        i = i + 1;
    }
}

/// The ordering key of an entry, as bytes.
pub fn entry_key_bytes(e: &TreeEntry) -> (r: Vec<u8>)
    ensures
        r@ == entry_key(e@),
{
    let dir_mode: Vec<u8> = vec![52u8, 48u8, 48u8, 48u8, 48u8];
    proof {
        assert(dir_mode@ =~= seq![52u8, 48u8, 48u8, 48u8, 48u8]);
    }
    let mut key: Vec<u8> = Vec::new();
    push_bytes(&mut key, e.name.as_slice());
    if crate::objparse::bytes_eq(e.mode.as_slice(), dir_mode.as_slice()) {
        key.push(47);
        proof {
            assert(key@ =~= entry_key(e@));
        }
        key
    } else {
        proof {
            assert(key@ =~= entry_key(e@));
        }
        key
    }
}

/// True when the entry at `j` of `es` carries the value of some entry of
/// `source`.
pub open spec fn drawn_from(es: Seq<TreeEntry>, source: Seq<TreeEntry>, j: int) -> bool {
    exists|i: int| 0 <= i < source.len() && es[j]@ == #[trigger] source[i]@
}

/// True when some entry of `out` carries the ordering key of `e`.
pub open spec fn key_covered(e: TreeEntry, out: Seq<TreeEntry>) -> bool {
    exists|j: int| 0 <= j < out.len() && entry_key(e@) == entry_key(#[trigger] out[j]@)
}

/// Sort tree entries into the canonical order, dropping any later entry
/// whose key repeats an earlier one.
///
/// The result is strictly sorted under the directory tie-break; every
/// entry of the result is one of the input entries, and every input key is
/// represented.
#[verifier::rlimit(100)]
pub fn sort_tree_entries(input: Vec<TreeEntry>) -> (r: Vec<TreeEntry>)
    ensures
        tree_sorted(Seq::new(r@.len(), |i: int| r@[i]@)),
        forall|j: int| 0 <= j < r@.len() ==> #[trigger] drawn_from(r@, input@, j),
        forall|i: int| 0 <= i < input@.len() ==> #[trigger] key_covered(input@[i], r@),
{
    let ghost orig = input@;
    let mut rem = input;
    let mut out: Vec<TreeEntry> = Vec::new();
    let ghost ng: int = 0;
    proof {
        assert(rem@ =~= orig.skip(0));
    }
    loop
        invariant
            0 <= ng <= orig.len(),
            rem@ == orig.skip(ng),
            tree_sorted(Seq::new(out@.len(), |i: int| out@[i]@)),
            forall|j: int| 0 <= j < out@.len() ==> #[trigger] drawn_from(out@, orig, j),
            forall|i: int| 0 <= i < ng ==> #[trigger] key_covered(orig[i], out@),
        ensures
            ng == orig.len(),
            tree_sorted(Seq::new(out@.len(), |i: int| out@[i]@)),
            forall|j: int| 0 <= j < out@.len() ==> #[trigger] drawn_from(out@, orig, j),
            forall|i: int| 0 <= i < orig.len() ==> #[trigger] key_covered(orig[i], out@),
        decreases rem@.len(),
    {
        if rem.len() == 0 {
            proof {
                assert(ng == orig.len());
            }
            break ;
        }
        let x = rem.remove(0);
        proof {
            assert(x@ == orig[ng]@);
            assert(rem@ =~= orig.skip(ng + 1));
        }
        let xkey = entry_key_bytes(&x);
        let mut p: usize = 0;
        loop
            invariant
                p <= out@.len(),
                xkey@ == entry_key(x@),
                forall|i: int|
                    0 <= i < p ==> bytes_lt(entry_key(#[trigger] out@[i]@), entry_key(x@)),
            ensures
                p <= out@.len(),
                forall|i: int|
                    0 <= i < p ==> bytes_lt(entry_key(#[trigger] out@[i]@), entry_key(x@)),
                p == out@.len() || !bytes_lt(entry_key(out@[p as int]@), entry_key(x@)),
            decreases out@.len() - p,
        {
            if p >= out.len() {
                break ;
            }
            let cur = entry_key_bytes(&out[p]);
            if !bytes_less(cur.as_slice(), xkey.as_slice()) {
                break ;
            }
            p = p + 1;
        }
        let ghost old_out = out@;
        let ghost oldv = Seq::new(old_out.len(), |k: int| old_out[k]@);
        let mut duplicate = false;
        if p < out.len() {
            let cur = entry_key_bytes(&out[p]);
            if !bytes_less(xkey.as_slice(), cur.as_slice()) {
                duplicate = true;
            }
        }
        if duplicate {
            proof {
                lemma_bytes_lt_connex(entry_key(x@), entry_key(out@[p as int]@));
                assert forall|i: int| 0 <= i < ng + 1 implies #[trigger] key_covered(
                    orig[i],
                    out@,
                ) by {
                    if i == ng {
                        assert(entry_key(orig[i]@) == entry_key(out@[p as int]@));
                    }
                }
            }
        } else {
            if p < out.len() {
                out.insert(p, x);
            } else {
                out.push(x);
                proof {
                    assert(out@ =~= old_out.insert(p as int, x));
                }
            }
            proof {
                old_out.insert_ensures(p as int, x);
                let ov = Seq::new(out@.len(), |i: int| out@[i]@);
                assert(ov[p as int] == x@);
                assert forall|i: int| 0 <= i < p implies ov[i] == oldv[i] by {
                    assert(out@[i] == old_out[i]);
                }
                assert forall|i: int| p < i < ov.len() implies ov[i] == oldv[i - 1] by {
                    assert(out@[i] == old_out[i - 1]);
                }
                if p < old_out.len() {
                    assert(!bytes_lt(entry_key(oldv[p as int]), entry_key(x@)));
                    assert(!(entry_key(x@) == entry_key(oldv[p as int])));
                    if !bytes_lt(entry_key(x@), entry_key(oldv[p as int])) {
                        lemma_bytes_lt_connex(entry_key(x@), entry_key(oldv[p as int]));
                        assert(false);
                    }
                }
                assert forall|i: int, j: int| 0 <= i < j < ov.len() implies bytes_lt(
                    entry_key(#[trigger] ov[i]),
                    entry_key(#[trigger] ov[j]),
                ) by {
                    if j < p {
                        assert(bytes_lt(entry_key(oldv[i]), entry_key(oldv[j])));
                    } else if j == p {
                        assert(bytes_lt(entry_key(oldv[i]), entry_key(x@)));
                    } else if i < p {
                        if j - 1 >= p {
                            if j - 1 == p {
                                if p < old_out.len() {
                                    assert(bytes_lt(entry_key(x@), entry_key(oldv[p as int])));
                                    assert(bytes_lt(entry_key(oldv[i]), entry_key(x@)));
                                    lemma_bytes_lt_trans(
                                        entry_key(oldv[i]),
                                        entry_key(x@),
                                        entry_key(oldv[p as int]),
                                    );
                                }
                            } else {
                                assert(bytes_lt(entry_key(oldv[i]), entry_key(oldv[j - 1])));
                            }
                        }
                    } else if i == p {
                        if j - 1 == p {
                            assert(bytes_lt(entry_key(x@), entry_key(oldv[p as int])));
                        } else {
                            assert(bytes_lt(entry_key(x@), entry_key(oldv[p as int])));
                            assert(bytes_lt(entry_key(oldv[p as int]), entry_key(oldv[j - 1])));
                            lemma_bytes_lt_trans(
                                entry_key(x@),
                                entry_key(oldv[p as int]),
                                entry_key(oldv[j - 1]),
                            );
                        }
                    } else {
                        assert(bytes_lt(entry_key(oldv[i - 1]), entry_key(oldv[j - 1])));
                    }
                }
                assert forall|j: int| 0 <= j < out@.len() implies #[trigger] drawn_from(
                    out@,
                    orig,
                    j,
                ) by {
                    if j < p {
                        assert(drawn_from(old_out, orig, j));
                        let wi = choose|i: int|
                            0 <= i < orig.len() && old_out[j]@ == #[trigger] orig[i]@;
                        assert(out@[j]@ == orig[wi]@);
                    } else if j == p {
                        assert(out@[j]@ == orig[ng]@);
                    } else {
                        assert(drawn_from(old_out, orig, j - 1));
                        let wi = choose|i: int|
                            0 <= i < orig.len() && old_out[j - 1]@ == #[trigger] orig[i]@;
                        assert(out@[j]@ == orig[wi]@);
                    }
                }
                assert forall|i: int| 0 <= i < ng + 1 implies #[trigger] key_covered(
                    orig[i],
                    out@,
                ) by {
                    if i < ng {
                        assert(key_covered(orig[i], old_out));
                        let wj = choose|j: int|
                            0 <= j < old_out.len() && entry_key(orig[i]@) == entry_key(
                                #[trigger] old_out[j]@,
                            );
                        if wj < p {
                            assert(entry_key(orig[i]@) == entry_key(out@[wj]@));
                        } else {
                            assert(out@[wj + 1]@ == old_out[wj]@);
                            assert(entry_key(orig[i]@) == entry_key(out@[wj + 1]@));
                        }
                    } else {
                        assert(entry_key(orig[i]@) == entry_key(out@[p as int]@));
                    }
                }
            }
        }
        proof {
            ng = ng + 1;
        }
    }
    out
}


} // verus!
