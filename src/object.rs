//! Objects (blobs, trees, commits): their models, canonical encoding,
//! hashing, decoding and human-readable rendering.

use vstd::prelude::*;
use vstd::utf8::*;

use sha1::{Digest, Sha1};

use crate::git_error::{GitError, GitResult};
use crate::parser::{
    after, take_until, contributor_bytes, contributor_spec, dec_digits, decimal_value, find_byte, lemma_until,
    parse_contributor, parse_string_until, parse_u64, prefix_until, push_decimal, until,
};
use crate::text::{
    all_ascii, ascii_chars, ascii_string, lemma_ascii_utf8, string_bytes, string_from_utf8,
};



verus! {

broadcast use vstd::utf8::group_utf8_lib;

/// A 20-byte object hash.
pub type Sha = [u8; 20];

/// A stored object: file content, a directory listing, or a commit.
#[derive(Debug)]
pub enum Object {
    Blob(Vec<u8>),
    Tree(Vec<ObjectReference>),
    Commit {
        tree: String,
        parents: Vec<String>,
        author: Contributor,
        committer: Contributor,
        message: String,
    },
}

/// One entry of a tree: a mode, a name and the hash of the named object.
#[derive(Debug)]
pub struct ObjectReference {
    pub mode: usize,
    pub name: String,
    pub hash: Sha,
}

/// Who wrote or committed a change, and when.
#[derive(Debug, Clone)]
pub struct Contributor {
    pub name: String,
    pub email: String,
    pub timestamp: u64,
    pub timezone: String,
}

pub ghost struct ContributorModel {
    pub name: Seq<char>,
    pub email: Seq<char>,
    pub timestamp: u64,
    pub timezone: Seq<char>,
}

pub ghost struct EntryModel {
    pub mode: nat,
    pub name: Seq<char>,
    pub hash: Seq<u8>,
}

pub ghost enum ObjectModel {
    Blob(Seq<u8>),
    Tree(Seq<EntryModel>),
    Commit {
        tree: Seq<char>,
        parents: Seq<Seq<char>>,
        author: ContributorModel,
        committer: ContributorModel,
        message: Seq<char>,
    },
}

impl View for Contributor {
    type V = ContributorModel;

    open spec fn view(&self) -> ContributorModel {
        ContributorModel {
            name: self.name@,
            email: self.email@,
            timestamp: self.timestamp,
            timezone: self.timezone@,
        }
    }
}

impl View for ObjectReference {
    type V = EntryModel;

    open spec fn view(&self) -> EntryModel {
        EntryModel { mode: self.mode as nat, name: self.name@, hash: self.hash@ }
    }
}

pub open spec fn entries_view(refs: Seq<ObjectReference>) -> Seq<EntryModel> {
    refs.map_values(|r: ObjectReference| r@)
}

pub open spec fn strings_view(ss: Seq<String>) -> Seq<Seq<char>> {
    ss.map_values(|s: String| s@)
}

impl View for Object {
    type V = ObjectModel;

    open spec fn view(&self) -> ObjectModel {
        match self {
            Object::Blob(b) => ObjectModel::Blob(b@),
            Object::Tree(refs) => ObjectModel::Tree(entries_view(refs@)),
            Object::Commit { tree, parents, author, committer, message } => ObjectModel::Commit {
                tree: tree@,
                parents: strings_view(parents@),
                author: author@,
                committer: committer@,
                message: message@,
            },
        }
    }
}


/// What SHA-1 gives for a byte sequence.
pub uninterp spec fn sha1_of(data: Seq<u8>) -> Seq<u8>;

/// Relies on `sha1::Sha1` (RustCrypto): the SHA-1 digest of the input, which
/// depends on the input bytes alone.
#[verifier::external_body]
pub fn get_sha(string: &[u8]) -> (r: Sha)
    ensures
        r@ == sha1_of(string@),
{
    let mut sha_one = Sha1::new();
    sha_one.update(string);
    sha_one.finalize().into()
}

/// A lowercase hexadecimal digit for a value below 16.
pub open spec fn hex_digit(n: u8) -> u8 {
    if n < 10 {
        (48 + n) as u8
    } else {
        (87 + n) as u8
    }
}

/// Two lowercase hexadecimal digits per byte, most significant first.
pub open spec fn hex_bytes(b: Seq<u8>) -> Seq<u8>
    decreases b.len(),
{
    if b.len() == 0 {
        seq![]
    } else {
        hex_bytes(b.drop_last()) + seq![hex_digit(b.last() / 16), hex_digit(b.last() % 16)]
    }
}

pub open spec fn hex_chars(b: Seq<u8>) -> Seq<char> {
    ascii_chars(hex_bytes(b))
}

proof fn lemma_hex_bytes(b: Seq<u8>)
    ensures
        hex_bytes(b).len() == 2 * b.len(),
        all_ascii(hex_bytes(b)),
    decreases b.len(),
{
    if b.len() > 0 {
        lemma_hex_bytes(b.drop_last());
        let h = hex_bytes(b);
        let p = hex_bytes(b.drop_last());
        assert forall|i: int| 0 <= i < h.len() implies #[trigger] h[i] < 128 by {
            if i < p.len() {
                assert(h[i] == p[i]);
            }
        }
    }
}

fn hex_digit_exec(n: u8) -> (r: u8)
    requires
        n < 16,
    ensures
        r == hex_digit(n),
{
    if n < 10 {
        48 + n
    } else {
        87 + n
    }
}

/// The 40 lowercase hexadecimal digits of a hash, as bytes.
pub fn hex_vec(bytes: &Sha) -> (r: Vec<u8>)
    ensures
        r@ == hex_bytes(bytes@),
        r@.len() == 40,
        all_ascii(r@),
{
    let mut out: Vec<u8> = Vec::new();
    let mut i: usize = 0;
    while i < 20
        invariant
            i <= 20,
            bytes@.len() == 20,
            out@ == hex_bytes(bytes@.subrange(0, i as int)),
        decreases 20 - i,
    {
        let b = bytes[i];
        out.push(hex_digit_exec(b / 16));
        out.push(hex_digit_exec(b % 16));
        let ghost s = bytes@.subrange(0, i as int + 1);
        assert(s.drop_last() =~= bytes@.subrange(0, i as int));
        i = i + 1;
        assert(out@ =~= hex_bytes(bytes@.subrange(0, i as int)));
    }
    assert(bytes@.subrange(0, 20) =~= bytes@);
    proof {
        lemma_hex_bytes(bytes@);
    }
    out
}

/// The 40 lowercase hexadecimal characters of a hash.
pub fn to_hex(bytes: &Sha) -> (r: String)
    ensures
        r@ == hex_chars(bytes@),
{
    ascii_string(hex_vec(bytes))
}

/// The bytes of one tree entry: `<mode> <name>\0<hash>`.
pub open spec fn entry_bytes(e: EntryModel) -> Seq<u8> {
    dec_digits(e.mode) + seq![32u8] + encode_utf8(e.name) + seq![0u8] + e.hash
}

/// A tree's payload: its entries' bytes in order.
pub open spec fn tree_payload(es: Seq<EntryModel>) -> Seq<u8>
    decreases es.len(),
{
    if es.len() == 0 {
        seq![]
    } else {
        tree_payload(es.drop_last()) + entry_bytes(es.last())
    }
}

/// `parent <hex>\n` for one parent.
pub open spec fn parent_line(p: Seq<char>) -> Seq<u8> {
    seq![112u8, 97, 114, 101, 110, 116, 32] + encode_utf8(p) + seq![10u8]
}

pub open spec fn parent_lines(ps: Seq<Seq<char>>) -> Seq<u8>
    decreases ps.len(),
{
    if ps.len() == 0 {
        seq![]
    } else {
        parent_lines(ps.drop_last()) + parent_line(ps.last())
    }
}

/// A commit's payload: its tree line, parent lines, author and committer
/// lines, a blank line and the message.
pub open spec fn commit_payload(
    tree: Seq<char>,
    parents: Seq<Seq<char>>,
    author: ContributorModel,
    committer: ContributorModel,
    message: Seq<char>,
) -> Seq<u8> {
    seq![116u8, 114, 101, 101, 32] + encode_utf8(tree) + seq![10u8] + parent_lines(parents)
        + seq![97u8, 117, 116, 104, 111, 114, 32] + contributor_bytes(author) + seq![
        99u8,
        111,
        109,
        109,
        105,
        116,
        116,
        101,
        114,
        32,
    ] + contributor_bytes(committer) + seq![10u8] + encode_utf8(message)
}

/// The payload of an object, which follows its header.
pub open spec fn payload(o: ObjectModel) -> Seq<u8> {
    match o {
        ObjectModel::Blob(b) => b,
        ObjectModel::Tree(es) => tree_payload(es),
        ObjectModel::Commit { tree, parents, author, committer, message } => commit_payload(
            tree,
            parents,
            author,
            committer,
            message,
        ),
    }
}

/// `blob`, `tree` or `commit`.
pub open spec fn type_token(o: ObjectModel) -> Seq<u8> {
    match o {
        ObjectModel::Blob(_) => seq![98u8, 108, 111, 98],
        ObjectModel::Tree(_) => seq![116u8, 114, 101, 101],
        ObjectModel::Commit { .. } => seq![99u8, 111, 109, 109, 105, 116],
    }
}

/// The canonical encoding: `<type> <payload length>\0<payload>`.
pub open spec fn encoded(o: ObjectModel) -> Seq<u8> {
    type_token(o) + seq![32u8] + dec_digits(payload(o).len()) + seq![0u8] + payload(o)
}

/// An object's hash: the SHA-1 of its canonical encoding.
pub open spec fn object_hash(o: ObjectModel) -> Seq<u8> {
    sha1_of(encoded(o))
}

/// Identical content gives an identical hash: an object's hash depends on its
/// canonical encoding alone.
pub proof fn lemma_hash_determined(a: ObjectModel, b: ObjectModel)
    requires
        encoded(a) == encoded(b),
    ensures
        object_hash(a) == object_hash(b),
{
}

fn push_contributor(out: &mut Vec<u8>, c: &Contributor)
    ensures
        final(out)@ == old(out)@ + contributor_bytes(c@),
{
    out.extend_from_slice(string_bytes(&c.name).as_slice());
    out.push(32u8);
    out.push(60u8);
    out.extend_from_slice(string_bytes(&c.email).as_slice());
    out.push(62u8);
    out.push(32u8);
    push_decimal(out, c.timestamp);
    out.push(32u8);
    out.extend_from_slice(string_bytes(&c.timezone).as_slice());
    out.push(10u8);
    assert(final(out)@ =~= old(out)@ + contributor_bytes(c@));
}

impl Object {
    fn payload_bytes(&self) -> (r: Vec<u8>)
        ensures
            r@ == payload(self@),
    {
        match self {
            Object::Blob(bytes) => {
                let mut res: Vec<u8> = Vec::new();
                res.extend_from_slice(bytes.as_slice());
                res
            },
            Object::Tree(refs) => {
                let mut content: Vec<u8> = Vec::new();
                let mut k: usize = 0;
                while k < refs.len()
                    invariant
                        k <= refs@.len(),
                        content@ == tree_payload(entries_view(refs@.subrange(0, k as int))),
                    decreases refs@.len() - k,
                {
                    let r = &refs[k];
                    push_decimal(&mut content, r.mode as u64);
                    content.push(32u8);
                    content.extend_from_slice(string_bytes(&r.name).as_slice());
                    content.push(0u8);
                    content.extend_from_slice(r.hash.as_slice());
                    let ghost es = entries_view(refs@.subrange(0, k as int + 1));
                    assert(es.drop_last() =~= entries_view(refs@.subrange(0, k as int)));
                    assert(es.last() == refs@[k as int]@);
                    k = k + 1;
                    assert(content@ =~= tree_payload(es));
                }
                assert(refs@.subrange(0, k as int) =~= refs@);
                content
            },
            Object::Commit { tree, parents, author, committer, message } => {
                let mut content: Vec<u8> = Vec::new();
                content.extend_from_slice(&[116u8, 114, 101, 101, 32]);
                content.extend_from_slice(string_bytes(tree).as_slice());
                content.push(10u8);
                let ghost head = content@;
                let mut k: usize = 0;
                while k < parents.len()
                    invariant
                        k <= parents@.len(),
                        content@ == head + parent_lines(
                            strings_view(parents@.subrange(0, k as int)),
                        ),
                    decreases parents@.len() - k,
                {
                    content.extend_from_slice(&[112u8, 97, 114, 101, 110, 116, 32]);
                    content.extend_from_slice(string_bytes(&parents[k]).as_slice());
                    content.push(10u8);
                    let ghost ps = strings_view(parents@.subrange(0, k as int + 1));
                    assert(ps.drop_last() =~= strings_view(parents@.subrange(0, k as int)));
                    k = k + 1;
                    assert(content@ =~= head + parent_lines(ps));
                }
                assert(parents@.subrange(0, k as int) =~= parents@);
                content.extend_from_slice(&[97u8, 117, 116, 104, 111, 114, 32]);
                push_contributor(&mut content, author);
                content.extend_from_slice(&[99u8, 111, 109, 109, 105, 116, 116, 101, 114, 32]);
                push_contributor(&mut content, committer);
                content.push(10u8);
                content.extend_from_slice(string_bytes(message).as_slice());
                assert(content@ =~= payload(self@));
                content
            },
        }
    }

    /// The canonical encoding of the object and its hash.
    pub fn encode(&self) -> (r: (Sha, Vec<u8>))
        ensures
            r.1@ == encoded(self@),
            r.0@ == sha1_of(r.1@),
            r.0@ == object_hash(self@),
    {
        let content = self.payload_bytes();
        let mut res: Vec<u8> = Vec::new();
        match self {
            Object::Blob(_) => res.extend_from_slice(&[98u8, 108, 111, 98]),
            Object::Tree(_) => res.extend_from_slice(&[116u8, 114, 101, 101]),
            Object::Commit { .. } => res.extend_from_slice(&[99u8, 111, 109, 109, 105, 116]),
        }
        res.push(32u8);
        push_decimal(&mut res, content.len() as u64);
        res.push(0u8);
        res.extend_from_slice(content.as_slice());
        assert(res@ =~= encoded(self@));
        let sha = get_sha(res.as_slice());
        (sha, res)
    }
}


/// `b` begins with `p`.
pub open spec fn starts_with(b: Seq<u8>, p: Seq<u8>) -> bool {
    b.len() >= p.len() && b.subrange(0, p.len() as int) == p
}

/// Reads tree entries until the payload is used up.
pub open spec fn tree_spec(b: Seq<u8>) -> Option<Seq<EntryModel>>
    decreases b.len(),
{
    if b.len() == 0 {
        Some(seq![])
    } else {
        let m = until(b, 32u8) as int;
        let r1 = after(b, m + 1);
        let n = until(r1, 0u8) as int;
        let name = r1.subrange(0, n);
        let r2 = after(r1, n + 1);
        if m < b.len() && (decimal_value(b.subrange(0, m)) matches Some(v) && v <= usize::MAX)
            && n < r1.len() && valid_utf8(name) && r2.len() >= 20 {
            match tree_spec(after(r2, 20)) {
                Some(rest) => Some(
                    seq![
                        EntryModel {
                            mode: decimal_value(b.subrange(0, m))->Some_0,
                            name: decode_utf8(name),
                            hash: r2.subrange(0, 20),
                        },
                    ] + rest,
                ),
                None => None,
            }
        } else {
            None
        }
    }
}

/// Reads `parent <hex>\n` lines while they come; gives the parents and the
/// number of bytes read.
pub open spec fn parents_spec(b: Seq<u8>) -> Option<(Seq<Seq<char>>, int)>
    decreases b.len(),
{
    if starts_with(b, seq![112u8, 97, 114, 101, 110, 116, 32]) {
        let r = after(b, 7);
        let n = until(r, 10u8) as int;
        if n < r.len() && valid_utf8(r.subrange(0, n)) {
            match parents_spec(after(r, n + 1)) {
                Some((ps, k)) => Some((seq![decode_utf8(r.subrange(0, n))] + ps, 7 + n + 1 + k)),
                None => None,
            }
        } else {
            None
        }
    } else {
        Some((seq![], 0))
    }
}

/// A keyword and a contributor field after it; gives the bytes read and the
/// contributor.
pub open spec fn signature_spec(b: Seq<u8>, kw: Seq<u8>) -> Option<(int, ContributorModel)> {
    if starts_with(b, kw) {
        match contributor_spec(after(b, kw.len() as int)) {
            Some((n, c)) => Some((kw.len() + n as int, c)),
            None => None,
        }
    } else {
        None
    }
}

/// The part of a commit payload after its parent lines: author, committer, a
/// blank line, the message.
pub open spec fn commit_tail_spec(b: Seq<u8>) -> Option<
    (ContributorModel, ContributorModel, Seq<char>),
> {
    match signature_spec(b, seq![97u8, 117, 116, 104, 111, 114, 32]) {
        Some((a, author)) => {
            let r = after(b, a);
            match signature_spec(r, seq![99u8, 111, 109, 109, 105, 116, 116, 101, 114, 32]) {
                Some((c, committer)) => {
                    let r2 = after(r, c);
                    let msg = after(r2, 1);
                    if starts_with(r2, seq![10u8]) && valid_utf8(msg) {
                        Some((author, committer, decode_utf8(msg)))
                    } else {
                        None
                    }
                },
                None => None,
            }
        },
        None => None,
    }
}

/// Reads a commit payload.
pub open spec fn commit_spec(b: Seq<u8>) -> Option<ObjectModel> {
    let r0 = after(b, 5);
    let t = until(r0, 10u8) as int;
    let tree = r0.subrange(0, t);
    let r1 = after(r0, t + 1);
    if starts_with(b, seq![116u8, 114, 101, 101, 32]) && t < r0.len() && valid_utf8(tree) {
        match parents_spec(r1) {
            Some((parents, k)) => match commit_tail_spec(after(r1, k)) {
                Some((author, committer, message)) => Some(
                    ObjectModel::Commit { tree: decode_utf8(tree), parents, author, committer, message },
                ),
                None => None,
            },
            None => None,
        }
    } else {
        None
    }
}

/// The three kinds of object.
#[derive(Debug, Clone, Copy, PartialEq, Eq, Structural)]
pub enum ObjKind {
    Blob,
    Tree,
    Commit,
}

pub open spec fn kind_of(o: ObjectModel) -> ObjKind {
    match o {
        ObjectModel::Blob(_) => ObjKind::Blob,
        ObjectModel::Tree(_) => ObjKind::Tree,
        ObjectModel::Commit { .. } => ObjKind::Commit,
    }
}

/// Reads a bare payload of a known kind.
pub open spec fn payload_spec(kind: ObjKind, b: Seq<u8>) -> Option<ObjectModel> {
    match kind {
        ObjKind::Blob => Some(ObjectModel::Blob(b)),
        ObjKind::Tree => match tree_spec(b) {
            Some(es) => Some(ObjectModel::Tree(es)),
            None => None,
        },
        ObjKind::Commit => commit_spec(b),
    }
}

/// The kind named by a type token.
pub open spec fn kind_of_token(tok: Seq<u8>) -> Option<ObjKind> {
    if tok == seq![98u8, 108, 111, 98] {
        Some(ObjKind::Blob)
    } else if tok == seq![116u8, 114, 101, 101] {
        Some(ObjKind::Tree)
    } else if tok == seq![99u8, 111, 109, 109, 105, 116] {
        Some(ObjKind::Commit)
    } else {
        None
    }
}

/// Reads an object with its header: the token before the first space picks
/// the kind, and the payload starts after the first NUL.
pub open spec fn decode_spec(b: Seq<u8>) -> Option<ObjectModel> {
    let z = until(b, 0u8) as int;
    if z < b.len() {
        match kind_of_token(prefix_until(b, 32u8)) {
            Some(kind) => payload_spec(kind, after(b, z + 1)),
            None => None,
        }
    } else {
        None
    }
}

/// A fresh vector holding the given bytes.
pub fn copy_bytes(b: &[u8]) -> (r: Vec<u8>)
    ensures
        r@ == b@,
{
    let mut v: Vec<u8> = Vec::new();
    v.extend_from_slice(b);
    v
}

fn starts_with_exec(b: &[u8], p: &[u8]) -> (r: bool)
    ensures
        r == starts_with(b@, p@),
{
    if b.len() < p.len() {
        return false;
    }
    let mut i: usize = 0;
    while i < p.len()
        invariant
            i <= p@.len(),
            p@.len() <= b@.len(),
            forall|k: int| 0 <= k < i ==> b@[k] == p@[k],
        decreases p@.len() - i,
    {
        if b[i] != p[i] {
            assert(b@.subrange(0, p@.len() as int)[i as int] != p@[i as int]);
            return false;
        }
        i = i + 1;
    }
    assert(b@.subrange(0, p@.len() as int) =~= p@);
    true
}

fn err<T>(msg: &str) -> (r: GitResult<T>)
    ensures
        r is Err,
{
    Err(GitError(String::from_str(msg)))
}

/// Reads the `parent` lines at the front of `r1`.
fn parse_parents(r1: &[u8]) -> (r: GitResult<(Vec<String>, usize)>)
    ensures
    r is Ok <==> parents_spec(r1@) is Some,
    r matches Ok((ps, k)) ==> parents_spec(r1@) == Some((strings_view(ps@), k as int)) && k
        <= r1@.len(),
{
    let mut parents: Vec<String> = Vec::new();
    let mut i: usize = 0;
    let mut more = starts_with_exec(r1, &[112u8, 97, 114, 101, 110, 116, 32]);
    assert(after(r1@, 0) =~= r1@);
    assert forall|ps: Seq<Seq<char>>| strings_view(parents@) + ps =~= ps by {}
    while more
        invariant
            i <= r1@.len(),
            more == starts_with(after(r1@, i as int), seq![112u8, 97, 114, 101, 110, 116, 32]),
            parents_spec(r1@) == (match parents_spec(after(r1@, i as int)) {
                Some((ps, k)) => Some((strings_view(parents@) + ps, i + k)),
                None => None::<(Seq<Seq<char>>, int)>,
            }),
        decreases r1@.len() - i,
    {
        let cur = &r1[i..r1.len()];
        let r = &cur[7..cur.len()];
        let n = find_byte(r, 10u8);
        proof { lemma_until(r@, 10u8); }
        if n >= r.len() {
            return err("commit: unterminated parent line");
        }
        let parent = match parse_string_until(r, 10u8) {
            Ok(s) => s,
            Err(e) => { return Err(e); },
        };
        let ghost old_parents = parents@;
        parents.push(parent);
        assert(strings_view(parents@) =~= strings_view(old_parents) + seq![parents@.last()@]);
        assert(after(r@, n + 1) =~= after(r1@, i + 7 + n + 1));
        i = i + 7 + n + 1;
        more = starts_with_exec(&r1[i..r1.len()], &[112u8, 97, 114, 101, 110, 116, 32]);
    }
    let ghost tail = after(r1@, i as int);
    assert(parents_spec(tail) == Some((Seq::<Seq<char>>::empty(), 0int)));
    assert(strings_view(parents@) + Seq::<Seq<char>>::empty() =~= strings_view(parents@));
    Ok((parents, i))
}

/// Reads a keyword and the contributor field after it.
fn parse_signature(b: &[u8], kw: &[u8]) -> (r: GitResult<(usize, Contributor)>)
    ensures
        r is Ok <==> signature_spec(b@, kw@) is Some,
        r matches Ok((n, c)) ==> signature_spec(b@, kw@) == Some((n as int, c@)) && n <= b@.len(),
{
    if !starts_with_exec(b, kw) {
        return err("commit: missing signature line");
    }
    let rest = &b[kw.len()..b.len()];
    let (n, c) = match parse_contributor(rest) {
        Ok(x) => x,
        Err(e) => { return Err(e); },
    };
    proof {
        crate::parser::lemma_contributor_len(rest@);
    }
    Ok((kw.len() + n, c))
}

/// Reads the author and committer lines, the blank line and the message.
fn parse_commit_tail(b: &[u8]) -> (r: GitResult<(Contributor, Contributor, String)>)
    ensures
        r is Ok <==> commit_tail_spec(b@) is Some,
        r matches Ok((a, c, m)) ==> commit_tail_spec(b@) == Some((a@, c@, m@)),
{
    let kw_author: [u8; 7] = [97u8, 117, 116, 104, 111, 114, 32];
    let kw_committer: [u8; 10] = [99u8, 111, 109, 109, 105, 116, 116, 101, 114, 32];
    let nl: [u8; 1] = [10u8];
    assert(kw_author@ == seq![97u8, 117, 116, 104, 111, 114, 32]);
    assert(kw_committer@ == seq![99u8, 111, 109, 109, 105, 116, 116, 101, 114, 32]);
    assert(nl@ == seq![10u8]);
    let (a, author) = match parse_signature(b, kw_author.as_slice()) {
        Ok(x) => x,
        Err(e) => { return Err(e); },
    };
    let r = &b[a..b.len()];
    let (c, committer) = match parse_signature(r, kw_committer.as_slice()) {
        Ok(x) => x,
        Err(e) => { return Err(e); },
    };
    let r2 = &r[c..r.len()];
    if !starts_with_exec(r2, nl.as_slice()) {
        return err("commit: missing blank line before the message");
    }
    let message = match string_from_utf8(copy_bytes(&r2[1..r2.len()])) {
        Some(s) => s,
        None => { return err("commit: invalid UTF-8 in message"); },
    };
    Ok((author, committer, message))
}

impl Object {
    /// A blob holding the payload as it is.
    pub fn decode_blob(bytes: &[u8]) -> (r: GitResult<Object>)
        ensures
            r matches Ok(o) && o@ == ObjectModel::Blob(bytes@),
    {
        Ok(Object::Blob(copy_bytes(bytes)))
    }

    /// Reads a tree payload: entries `<mode> <name>\0<20-byte hash>` in the
    /// order they are stored.
    pub fn decode_tree(bytes: &[u8]) -> (r: GitResult<Object>)
        ensures
            r is Ok <==> tree_spec(bytes@) is Some,
            r matches Ok(o) ==> tree_spec(bytes@) matches Some(es) && o@ == ObjectModel::Tree(es),
    {
        let mut i: usize = 0;
        let mut refs: Vec<ObjectReference> = Vec::new();
        assert(after(bytes@, 0) =~= bytes@);
        assert forall|rest: Seq<EntryModel>| entries_view(refs@) + rest =~= rest by {}
        while i < bytes.len()
            invariant
                i <= bytes@.len(),
                tree_spec(bytes@) == (match tree_spec(after(bytes@, i as int)) {
                    Some(rest) => Some(entries_view(refs@) + rest),
                    None => None::<Seq<EntryModel>>,
                }),
            decreases bytes@.len() - i,
        {
            let cur = &bytes[i..bytes.len()];
            let ghost b = cur@;
            let m = find_byte(cur, 32u8);
            proof { lemma_until(b, 32u8); }
            if m >= cur.len() {
                return err("tree entry: missing space after mode");
            }
            let mode = match parse_u64(&cur[0..m]) {
                Some(v) => v,
                None => { return err("tree entry: invalid mode"); },
            };
            if mode > usize::MAX as u64 {
                return err("tree entry: invalid mode");
            }
            let r1 = &cur[m + 1..cur.len()];
            let n = find_byte(r1, 0u8);
            proof { lemma_until(r1@, 0u8); }
            if n >= r1.len() {
                return err("tree entry: missing NUL after name");
            }
            let name = match parse_string_until(r1, 0u8) {
                Ok(s) => s,
                Err(e) => { return Err(e); },
            };
            let r2 = &r1[n + 1..r1.len()];
            if r2.len() < 20 {
                return err("tree entry: truncated hash");
            }
            let mut hash: Sha = [0u8; 20];
            let mut k: usize = 0;
            while k < 20
                invariant
                    k <= 20,
                    r2@.len() >= 20,
                    forall|j: int| 0 <= j < k ==> hash@[j] == r2@[j],
                decreases 20 - k,
            {
                hash[k] = r2[k];
                k = k + 1;
            }
            assert(hash@ =~= r2@.subrange(0, 20));
            let ghost old_refs = refs@;
            refs.push(ObjectReference { mode: mode as usize, name, hash });
            assert(entries_view(refs@) =~= entries_view(old_refs) + seq![refs@.last()@]);
            let ghost nexti = i + m + 1 + n + 1 + 20;
            assert(after(r2@, 20) =~= after(bytes@, nexti));
            assert(cur@.subrange(0, m as int) == prefix_until(b, 32u8));
            i = i + m + 1 + n + 1 + 20;
        }
        assert(after(bytes@, i as int) =~= Seq::<u8>::empty());
        assert(entries_view(refs@) + Seq::<EntryModel>::empty() =~= entries_view(refs@));
        Ok(Object::Tree(refs))
    }

    /// Reads a commit payload: a `tree` line, any `parent` lines, an `author`
    /// and a `committer` line, a blank line, then the message as it stands.
    pub fn decode_commit(bytes: &[u8]) -> (r: GitResult<Object>)
        ensures
            r is Ok <==> commit_spec(bytes@) is Some,
            r matches Ok(o) ==> commit_spec(bytes@) == Some(o@),
    {
        if !starts_with_exec(bytes, &[116u8, 114, 101, 101, 32]) {
            return err("commit: missing tree line");
        }
        let r0 = &bytes[5..bytes.len()];
        let t = find_byte(r0, 10u8);
        proof { lemma_until(r0@, 10u8); }
        if t >= r0.len() {
            return err("commit: unterminated tree line");
        }
        let tree = match parse_string_until(r0, 10u8) {
            Ok(s) => s,
            Err(e) => { return Err(e); },
        };
        let r1 = &r0[t + 1..r0.len()];
        let (parents, i) = match parse_parents(r1) {
            Ok(x) => x,
            Err(e) => { return Err(e); },
        };
        let r2 = &r1[i..r1.len()];
        let (author, committer, message) = match parse_commit_tail(r2) {
            Ok(x) => x,
            Err(e) => { return Err(e); },
        };
        Ok(Object::Commit { tree, parents, author, committer, message })
    }

    /// Reads a bare payload of the given kind.
    pub fn decode_payload(kind: ObjKind, bytes: &[u8]) -> (r: GitResult<Object>)
        ensures
            r is Ok <==> payload_spec(kind, bytes@) is Some,
            r matches Ok(o) ==> payload_spec(kind, bytes@) == Some(o@),
    {
        match kind {
            ObjKind::Blob => Object::decode_blob(bytes),
            ObjKind::Tree => Object::decode_tree(bytes),
            ObjKind::Commit => Object::decode_commit(bytes),
        }
    }

    /// The kind of this object.
    pub fn kind(&self) -> (r: ObjKind)
        ensures
            r == kind_of(self@),
    {
        match self {
            Object::Blob(_) => ObjKind::Blob,
            Object::Tree(_) => ObjKind::Tree,
            Object::Commit { .. } => ObjKind::Commit,
        }
    }

    /// Reads an object with its header; the type token picks the kind, and an
    /// unknown token is refused with `Unsupported object type: <token>`.
    pub fn decode(bytes: &[u8]) -> (r: GitResult<Object>)
        ensures
            r is Ok <==> decode_spec(bytes@) is Some,
            r matches Ok(o) ==> decode_spec(bytes@) == Some(o@),
            until(bytes@, 0u8) < bytes@.len() && kind_of_token(prefix_until(bytes@, 32u8)) is None
                && valid_utf8(prefix_until(bytes@, 32u8)) ==> (r matches Err(e) && encode_utf8(
                e.0@,
            ) == unsupported_type() + prefix_until(bytes@, 32u8)),
    {
        let z = find_byte(bytes, 0u8);
        proof { lemma_until(bytes@, 0u8); }
        if z >= bytes.len() {
            return err("No null character found in object");
        }
        let token = take_until(bytes, 32u8);
        let payload = &bytes[z + 1..bytes.len()];
        if token.len() == 4 && token[0] == 98 && token[1] == 108 && token[2] == 111 && token[3] == 98 {
            assert(token@ =~= seq![98u8, 108, 111, 98]);
            Object::decode_blob(payload)
        } else if token.len() == 4 && token[0] == 116 && token[1] == 114 && token[2] == 101
            && token[3] == 101 {
            assert(token@ =~= seq![116u8, 114, 101, 101]);
            Object::decode_tree(payload)
        } else if token.len() == 6 && token[0] == 99 && token[1] == 111 && token[2] == 109
            && token[3] == 109 && token[4] == 105 && token[5] == 116 {
            assert(token@ =~= seq![99u8, 111, 109, 109, 105, 116]);
            Object::decode_commit(payload)
        } else {
            assert(kind_of_token(token@) is None) by {
                if token@ == seq![98u8, 108, 111, 98] {
                    assert(token@[3] == 98);
                } else if token@ == seq![116u8, 114, 101, 101] {
                    assert(token@[3] == 101);
                } else if token@ == seq![99u8, 111, 109, 109, 105, 116] {
                    assert(token@[5] == 116);
                }
            }
            let mut msg: Vec<u8> = Vec::new();
            msg.extend_from_slice(&[85, 110, 115, 117, 112, 112, 111, 114, 116, 101, 100, 32, 111, 98, 106, 101, 99, 116, 32, 116, 121, 112, 101, 58, 32]);
            let ghost head = msg@;
            assert(head =~= unsupported_type());
            msg.extend_from_slice(token.as_slice());
            assert(msg@ =~= unsupported_type() + token@);
            proof {
                assert(all_ascii(head)) by {
                    assert forall|i: int| 0 <= i < head.len() implies #[trigger] head[i] < 128 by {}
                }
                lemma_ascii_utf8(head);
                if valid_utf8(token@) {
                    valid_utf8_concat(head, token@);
                }
            }
            match string_from_utf8(msg) {
                Some(m) => Err(GitError(m)),
                None => err("Unsupported object type"),
            }
        }
    }
}

/// The bytes of `Unsupported object type: `.
pub open spec fn unsupported_type() -> Seq<u8> {
    seq![85u8, 110, 115, 117, 112, 112, 111, 114, 116, 101, 100, 32, 111, 98, 106, 101, 99, 116, 32, 116, 121, 112, 101, 58, 32]
}

/// A decimal mode padded on the left with zeros to six digits.
pub open spec fn pad6(d: Seq<u8>) -> Seq<u8> {
    if d.len() < 6 {
        Seq::new((6 - d.len()) as nat, |i: int| 48u8) + d
    } else {
        d
    }
}

/// `blob` when the mode's first decimal digit is 1, else `tree`.
pub open spec fn type_word(mode: nat) -> Seq<u8> {
    if dec_digits(mode)[0] == 49u8 {
        seq![98u8, 108, 111, 98]
    } else {
        seq![116u8, 114, 101, 101]
    }
}

/// One listing line: `<mode, six digits> <blob|tree> <hex hash>    <name>\n`.
pub open spec fn render_entry(e: EntryModel) -> Seq<u8> {
    pad6(dec_digits(e.mode)) + seq![32u8] + type_word(e.mode) + seq![32u8] + hex_bytes(e.hash)
        + seq![32u8, 32, 32, 32] + encode_utf8(e.name) + seq![10u8]
}

pub open spec fn render_tree(es: Seq<EntryModel>) -> Seq<u8>
    decreases es.len(),
{
    if es.len() == 0 {
        seq![]
    } else {
        render_tree(es.drop_last()) + render_entry(es.last())
    }
}

/// The human-readable form of an object, as bytes: a blob as it is, a tree as
/// one line per entry, a commit laid out as its payload.
pub open spec fn rendered(o: ObjectModel) -> Seq<u8> {
    match o {
        ObjectModel::Blob(b) => b,
        ObjectModel::Tree(es) => render_tree(es),
        ObjectModel::Commit { .. } => payload(o),
    }
}

fn push_rendered_entry(res: &mut Vec<u8>, r: &ObjectReference)
    ensures
        final(res)@ == old(res)@ + render_entry(r@),
{
    let ghost start = old(res)@;
    let mut digits: Vec<u8> = Vec::new();
    push_decimal(&mut digits, r.mode as u64);
    proof {
        crate::parser::lemma_dec_digits(r.mode as nat);
    }
    let mut pad: usize = digits.len();
    while pad < 6
        invariant
            digits@.len() <= pad,
            pad <= 6 || pad == digits@.len(),
            res@ == start + Seq::new((pad - digits@.len()) as nat, |i: int| 48u8),
        decreases 6 - pad,
    {
        res.push(48u8);
        pad = pad + 1;
        assert(res@ =~= start + Seq::new((pad - digits@.len()) as nat, |i: int| 48u8));
    }
    res.extend_from_slice(digits.as_slice());
    assert(res@ =~= start + pad6(digits@)) by {
        if digits@.len() >= 6 {
            assert(Seq::new(0, |i: int| 48u8) =~= Seq::<u8>::empty());
        }
    }
    res.push(32u8);
    if digits[0] == 49u8 {
        res.extend_from_slice(&[98u8, 108, 111, 98]);
    } else {
        res.extend_from_slice(&[116u8, 114, 101, 101]);
    }
    res.push(32u8);
    res.extend_from_slice(hex_vec(&r.hash).as_slice());
    res.extend_from_slice(&[32u8, 32, 32, 32]);
    res.extend_from_slice(string_bytes(&r.name).as_slice());
    res.push(10u8);
    assert(res@ =~= start + render_entry(r@));
}

proof fn lemma_ascii_valid(b: Seq<u8>)
    requires
        forall|i: int| 0 <= i < b.len() ==> b[i] < 128,
    ensures
        valid_utf8(b),
{
    lemma_ascii_utf8(b);
}

proof fn lemma_cat3(a: Seq<u8>, b: Seq<u8>, c: Seq<u8>)
    requires
        valid_utf8(a),
        valid_utf8(b),
        valid_utf8(c),
    ensures
        valid_utf8(a + b + c),
{
    valid_utf8_concat(a, b);
    valid_utf8_concat(a + b, c);
}

proof fn lemma_digits_valid(n: nat)
    ensures
        valid_utf8(dec_digits(n)),
        valid_utf8(pad6(dec_digits(n))),
{
    crate::parser::lemma_dec_digits(n);
    let d = dec_digits(n);
    assert forall|i: int| 0 <= i < d.len() implies d[i] < 128 by {
        assert(crate::parser::is_digit(d[i]));
    }
    lemma_ascii_valid(d);
    let p = pad6(d);
    assert forall|i: int| 0 <= i < p.len() implies p[i] < 128 by {
        if d.len() < 6 && i >= 6 - d.len() {
            assert(p[i] == d[i - (6 - d.len())]);
        }
    }
    lemma_ascii_valid(p);
}

proof fn lemma_render_entry_valid(e: EntryModel)
    ensures
        valid_utf8(render_entry(e)),
{
    lemma_digits_valid(e.mode);
    lemma_hex_bytes(e.hash);
    let sp = seq![32u8];
    let word = type_word(e.mode);
    let four = seq![32u8, 32, 32, 32];
    let nl = seq![10u8];
    lemma_ascii_valid(sp);
    lemma_ascii_valid(word);
    lemma_ascii_valid(four);
    lemma_ascii_valid(nl);
    lemma_ascii_valid(hex_bytes(e.hash));
    let a = pad6(dec_digits(e.mode)) + sp + word;
    lemma_cat3(pad6(dec_digits(e.mode)), sp, word);
    lemma_cat3(a, sp, hex_bytes(e.hash));
    let b = a + sp + hex_bytes(e.hash);
    lemma_cat3(b, four, encode_utf8(e.name));
    lemma_cat3(b + four + encode_utf8(e.name), nl, seq![]);
    assert(b + four + encode_utf8(e.name) + nl + Seq::<u8>::empty() =~= render_entry(e));
}

proof fn lemma_render_tree_valid(es: Seq<EntryModel>)
    ensures
        valid_utf8(render_tree(es)),
    decreases es.len(),
{
    if es.len() > 0 {
        lemma_render_tree_valid(es.drop_last());
        lemma_render_entry_valid(es.last());
        valid_utf8_concat(render_tree(es.drop_last()), render_entry(es.last()));
    }
}

proof fn lemma_contributor_valid(c: ContributorModel)
    ensures
        valid_utf8(contributor_bytes(c)),
{
    lemma_digits_valid(c.timestamp as nat);
    let l1 = seq![32u8, 60u8];
    let l2 = seq![62u8, 32u8];
    let l3 = seq![32u8];
    let l4 = seq![10u8];
    lemma_ascii_valid(l1);
    lemma_ascii_valid(l2);
    lemma_ascii_valid(l3);
    lemma_ascii_valid(l4);
    let a = encode_utf8(c.name) + l1 + encode_utf8(c.email);
    lemma_cat3(encode_utf8(c.name), l1, encode_utf8(c.email));
    lemma_cat3(a, l2, dec_digits(c.timestamp as nat));
    let b = a + l2 + dec_digits(c.timestamp as nat);
    lemma_cat3(b, l3, encode_utf8(c.timezone));
    lemma_cat3(b + l3 + encode_utf8(c.timezone), l4, seq![]);
    assert(b + l3 + encode_utf8(c.timezone) + l4 + Seq::<u8>::empty() =~= contributor_bytes(c));
}

proof fn lemma_parent_lines_valid(ps: Seq<Seq<char>>)
    ensures
        valid_utf8(parent_lines(ps)),
    decreases ps.len(),
{
    if ps.len() > 0 {
        lemma_parent_lines_valid(ps.drop_last());
        let kw = seq![112u8, 97, 114, 101, 110, 116, 32];
        lemma_ascii_valid(kw);
        lemma_ascii_valid(seq![10u8]);
        lemma_cat3(kw, encode_utf8(ps.last()), seq![10u8]);
        valid_utf8_concat(parent_lines(ps.drop_last()), parent_line(ps.last()));
    }
}

/// Trees and commits always render to UTF-8 text.
pub proof fn lemma_rendered_text(o: ObjectModel)
    requires
        !(o is Blob),
    ensures
        valid_utf8(rendered(o)),
{
    match o {
        ObjectModel::Blob(_) => {},
        ObjectModel::Tree(es) => {
            lemma_render_tree_valid(es);
        },
        ObjectModel::Commit { tree, parents, author, committer, message } => {
            let k1 = seq![116u8, 114, 101, 101, 32];
            let k2 = seq![97u8, 117, 116, 104, 111, 114, 32];
            let k3 = seq![99u8, 111, 109, 109, 105, 116, 116, 101, 114, 32];
            let nl = seq![10u8];
            lemma_ascii_valid(k1);
            lemma_ascii_valid(k2);
            lemma_ascii_valid(k3);
            lemma_ascii_valid(nl);
            lemma_parent_lines_valid(parents);
            lemma_contributor_valid(author);
            lemma_contributor_valid(committer);
            lemma_cat3(k1, encode_utf8(tree), nl);
            let a = k1 + encode_utf8(tree) + nl;
            lemma_cat3(a, parent_lines(parents), k2);
            let b = a + parent_lines(parents) + k2;
            lemma_cat3(b, contributor_bytes(author), k3);
            let c = b + contributor_bytes(author) + k3;
            lemma_cat3(c, contributor_bytes(committer), nl);
            let d = c + contributor_bytes(committer) + nl;
            lemma_cat3(d, encode_utf8(message), seq![]);
            assert(d + encode_utf8(message) + Seq::<u8>::empty() =~= rendered(o));
        },
    }
}

impl Object {
    /// The human-readable form of the object; fails when a blob is not UTF-8
    /// text.
    pub fn content(&self) -> (r: GitResult<String>)
        ensures
            r is Ok <==> valid_utf8(rendered(self@)),
            !(self@ is Blob) ==> r is Ok,
            r matches Ok(s) ==> s@ == decode_utf8(rendered(self@)),
    {
        proof {
            if !(self@ is Blob) {
                lemma_rendered_text(self@);
            }
        }
        let bytes: Vec<u8> = match self {
            Object::Blob(b) => copy_bytes(b.as_slice()),
            Object::Tree(refs) => {
                let mut res: Vec<u8> = Vec::new();
                let mut k: usize = 0;
                while k < refs.len()
                    invariant
                        k <= refs@.len(),
                        res@ == render_tree(entries_view(refs@.subrange(0, k as int))),
                    decreases refs@.len() - k,
                {
                    let ghost start = res@;
                    push_rendered_entry(&mut res, &refs[k]);
                    let ghost es = entries_view(refs@.subrange(0, k as int + 1));
                    assert(es.drop_last() =~= entries_view(refs@.subrange(0, k as int)));
                    assert(es.last() == refs@[k as int]@);
                    assert(res@ =~= start + render_entry(refs@[k as int]@));
                    k = k + 1;
                }
                assert(refs@.subrange(0, k as int) =~= refs@);
                res
            },
            Object::Commit { .. } => self.payload_bytes(),
        };
        match string_from_utf8(bytes) {
            Some(s) => Ok(s),
            None => err("content is not UTF-8 text"),
        }
    }
}

} // verus!
