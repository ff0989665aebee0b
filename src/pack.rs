//! Pack streams: entry headers, base-128 numbers, delta reconstruction and
//! the single-pass decoder that turns a pack into its objects.

use vstd::prelude::*;

use crate::git_error::{GitError, GitResult};
use crate::object::{
    hex_chars, kind_of, object_hash, payload_spec, to_hex, ObjKind, Object, ObjectModel, Sha,
};
use crate::parser::after;
use crate::zlib::{read, zlib_inflate};

verus! {

/// Position of the first byte below 0x80, which ends a base-128 number, or
/// the length when there is none.
pub open spec fn first_low(b: Seq<u8>) -> nat
    decreases b.len(),
{
    if b.len() == 0 {
        0
    } else if b[0] < 128 {
        0
    } else {
        1 + first_low(b.drop_first())
    }
}

pub proof fn lemma_first_low(b: Seq<u8>)
    ensures
        first_low(b) <= b.len(),
        forall|k: int| 0 <= k < first_low(b) ==> b[k] >= 128,
        first_low(b) < b.len() ==> b[first_low(b) as int] < 128,
    decreases b.len(),
{
    if b.len() > 0 && b[0] >= 128 {
        lemma_first_low(b.drop_first());
        assert forall|k: int| 0 <= k < first_low(b) implies b[k] >= 128 by {
            if k > 0 {
                assert(b[k] == b.drop_first()[k - 1]);
            }
        }
    }
}

proof fn lemma_first_low_unique(b: Seq<u8>, n: int)
    requires
        0 <= n <= b.len(),
        forall|k: int| 0 <= k < n ==> b[k] >= 128,
        n == b.len() || b[n] < 128,
    ensures
        first_low(b) == n,
    decreases b.len(),
{
    if n > 0 {
        let t = b.drop_first();
        assert forall|k: int| 0 <= k < n - 1 implies t[k] >= 128 by {
            assert(t[k] == b[k + 1]);
        }
        if n < b.len() {
            assert(t[n - 1] == b[n]);
        }
        lemma_first_low_unique(t, n - 1);
    }
}

/// Position of the first byte below 0x80 in `b`, or its length.
pub fn find_low(b: &[u8]) -> (r: usize)
    ensures
        r == first_low(b@),
{
    let mut i: usize = 0;
    while i < b.len() && b[i] >= 128
        invariant
            i <= b@.len(),
            forall|k: int| 0 <= k < i ==> b@[k] >= 128,
        decreases b@.len() - i,
    {
        i = i + 1;
    }
    proof {
        lemma_first_low_unique(b@, i as int);
    }
    i
}

/// Little-endian base-128: the low seven bits of each byte, least
/// significant group first.
pub open spec fn le_value(b: Seq<u8>) -> nat
    decreases b.len(),
{
    if b.len() == 0 {
        0
    } else {
        (b[0] % 128) as nat + 128 * le_value(b.drop_first())
    }
}

proof fn lemma_le_value_suffix(b: Seq<u8>, k: int)
    requires
        0 <= k <= b.len(),
    ensures
        le_value(b) >= le_value(after(b, k)),
    decreases k,
{
    if k > 0 {
        lemma_le_value_suffix(b, k - 1);
        let s = after(b, k - 1);
        assert(s.drop_first() =~= after(b, k));
    } else {
        assert(after(b, 0) =~= b);
    }
}

/// Reads a little-endian base-128 number; `None` when it exceeds `u64::MAX`.
pub fn read_var_len_integer_le(bytes: &[u8]) -> (r: Option<u64>)
    ensures
        r is Some <==> le_value(bytes@) <= u64::MAX,
        r matches Some(v) ==> v as nat == le_value(bytes@),
{
    let mut res: u64 = 0;
    let mut k: usize = bytes.len();
    assert(after(bytes@, k as int) =~= Seq::<u8>::empty());
    while k > 0
        invariant
            k <= bytes@.len(),
            res as nat == le_value(after(bytes@, k as int)),
        decreases k,
    {
        let d: u64 = (bytes[k - 1] % 128) as u64;
        let ghost s = after(bytes@, k - 1);
        assert(s.drop_first() =~= after(bytes@, k as int));
        if res > (u64::MAX - d) / 128 {
            proof {
                lemma_le_value_suffix(bytes@, k - 1);
            }
            return None;
        }
        res = d + 128 * res;
        k = k - 1;
    }
    assert(after(bytes@, 0) =~= bytes@);
    Some(res)
}

/// Big-endian base-128 with an increment: seven bits per byte, most
/// significant group first, and one added before each further group.
pub open spec fn be_inc_value(b: Seq<u8>) -> nat
    decreases b.len(),
{
    if b.len() == 0 {
        0
    } else if b.len() == 1 {
        (b[0] % 128) as nat
    } else {
        (be_inc_value(b.drop_last()) + 1) * 128 + (b.last() % 128) as nat
    }
}

proof fn lemma_be_inc_value_prefix(b: Seq<u8>, k: int)
    requires
        1 <= k <= b.len(),
    ensures
        be_inc_value(b) >= be_inc_value(b.subrange(0, k)),
    decreases b.len() - k,
{
    if k < b.len() {
        lemma_be_inc_value_prefix(b, k + 1);
        let s = b.subrange(0, k + 1);
        assert(s.drop_last() =~= b.subrange(0, k));
    } else {
        assert(b.subrange(0, k) =~= b);
    }
}

/// Reads the base distance of an offset delta; `None` when it exceeds
/// `u64::MAX`.
pub fn read_var_len_integer_be_with_increment(bytes: &[u8]) -> (r: Option<u64>)
    ensures
        r is Some <==> be_inc_value(bytes@) <= u64::MAX,
        r matches Some(v) ==> v as nat == be_inc_value(bytes@),
{
    if bytes.len() == 0 {
        return Some(0);
    }
    let mut res: u64 = (bytes[0] % 128) as u64;
    let mut k: usize = 1;
    assert(bytes@.subrange(0, 1).len() == 1);
    while k < bytes.len()
        invariant
            1 <= k <= bytes@.len(),
            res as nat == be_inc_value(bytes@.subrange(0, k as int)),
        decreases bytes@.len() - k,
    {
        let d: u64 = (bytes[k] % 128) as u64;
        let ghost s = bytes@.subrange(0, k + 1);
        assert(s.drop_last() =~= bytes@.subrange(0, k as int));
        if res >= u64::MAX / 128 || (res + 1) * 128 > u64::MAX - d {
            proof {
                lemma_be_inc_value_prefix(bytes@, k + 1);
            }
            return None;
        }
        res = (res + 1) * 128 + d;
        k = k + 1;
    }
    assert(bytes@.subrange(0, k as int) =~= bytes@);
    Some(res)
}

/// The bit that flag `j` of a copy instruction occupies.
pub open spec fn flag_bit(j: nat) -> nat {
    if j == 0 {
        1
    } else if j == 1 {
        2
    } else if j == 2 {
        4
    } else if j == 3 {
        8
    } else if j == 4 {
        16
    } else {
        32
    }
}

/// Weight of the byte that flag `j` brings: flags 0 to 3 build the offset,
/// flags 4 and 5 the length, each least significant byte first.
pub open spec fn flag_weight(j: nat) -> nat {
    if j == 0 || j == 4 {
        1
    } else if j == 1 || j == 5 {
        256
    } else if j == 2 {
        65536
    } else {
        16777216
    }
}

pub open spec fn flag_set(c: u8, j: nat) -> bool {
    (c as nat / flag_bit(j)) % 2 == 1
}

/// Reads the operand bytes of a copy instruction from flag `j` on; gives the
/// bytes used, the offset and the length.
pub open spec fn gather(c: u8, d: Seq<u8>, j: nat, used: nat, off: nat, size: nat) -> Option<
    (nat, nat, nat),
>
    decreases 6 - j,
{
    if j >= 6 {
        Some((used, off, size))
    } else if flag_set(c, j) {
        if used < d.len() {
            let v = d[used as int] as nat * flag_weight(j);
            if j < 4 {
                gather(c, d, j + 1, used + 1, off + v, size)
            } else {
                gather(c, d, j + 1, used + 1, off, size + v)
            }
        } else {
            None
        }
    } else {
        gather(c, d, j + 1, used, off, size)
    }
}

/// A delta instruction: copy a range of the base, or insert literal bytes.
enum Instruction {
    Copy(u64, u64),
    Insert(usize),
}

/// Decodes the instruction with control byte `instruction` whose operands
/// start `bs`; gives the operand bytes used and the instruction. A copy whose
/// written length is zero copies 65536 bytes.
fn parse_instruction(instruction: u8, bs: &[u8]) -> (r: Option<(usize, Instruction)>)
    ensures
        instruction < 128 ==> (r matches Some((0, Instruction::Insert(n))) && n == instruction),
        instruction >= 128 ==> (r is Some <==> gather(instruction, bs@, 0, 0, 0, 0) is Some),
        instruction >= 128 ==> (r matches Some((used, Instruction::Copy(len, offset))) ==> (gather(
            instruction,
            bs@,
            0,
            0,
            0,
            0,
        ) matches Some((u, o, size)) && u == used && o == offset && len == (if size == 0 {
            65536
        } else {
            size
        }))),
        instruction >= 128 ==> !(r matches Some((_, Instruction::Insert(_)))),
{
    if instruction < 128 {
        return Some((0, Instruction::Insert(instruction as usize)));
    }
    let mut i: usize = 0;
    let mut offset: u64 = 0;
    let mut len: u64 = 0;
    let mut j: u64 = 0;
    while j < 6
        invariant
            j <= 6,
            i <= j,
            offset <= j * 4294967296,
            len <= j * 4294967296,
            instruction >= 128,
            gather(instruction, bs@, 0, 0, 0, 0) == gather(
                instruction,
                bs@,
                j as nat,
                i as nat,
                offset as nat,
                len as nat,
            ),
        decreases 6 - j,
    {
        let bit: u8 = if j == 0 {
            1
        } else if j == 1 {
            2
        } else if j == 2 {
            4
        } else if j == 3 {
            8
        } else if j == 4 {
            16
        } else {
            32
        };
        let weight: u64 = if j == 0 || j == 4 {
            1
        } else if j == 1 || j == 5 {
            256
        } else if j == 2 {
            65536
        } else {
            16777216
        };
        assert(bit as nat == flag_bit(j as nat));
        assert(weight as nat == flag_weight(j as nat));
        if (instruction / bit) % 2 == 1 {
            if i >= bs.len() {
                return None;
            }
            let byte: u64 = bs[i] as u64;
            assert(byte * weight <= 255 * 16777216) by (nonlinear_arith)
                requires
                    byte <= 255,
                    weight <= 16777216,
            ;
            let v: u64 = byte * weight;
            if j < 4 {
                offset = offset + v;
            } else {
                len = len + v;
            }
            i = i + 1;
        }
        j = j + 1;
    }
    let size: u64 = if len == 0 {
        65536
    } else {
        len
    };
    Some((i, Instruction::Copy(size, offset)))
}

/// Runs delta instructions against `base`: a control byte with its high bit
/// set copies a range of the base (a written length of zero stands for
/// 65536), any other control byte inserts that many literal bytes that follow.
pub open spec fn run_delta(base: Seq<u8>, d: Seq<u8>) -> Option<Seq<u8>>
    decreases d.len(),
{
    if d.len() == 0 {
        Some(seq![])
    } else {
        let c = d[0];
        let rest = after(d, 1);
        if c >= 128 {
            match gather(c, rest, 0, 0, 0, 0) {
                Some((used, off, size0)) => {
                    let size = if size0 == 0 {
                        65536
                    } else {
                        size0
                    };
                    if used <= rest.len() && off + size <= base.len() {
                        match run_delta(base, after(rest, used as int)) {
                            Some(out) => Some(base.subrange(off as int, (off + size) as int) + out),
                            None => None,
                        }
                    } else {
                        None
                    }
                },
                None => None,
            }
        } else {
            let n = c as int;
            if n <= rest.len() {
                match run_delta(base, after(rest, n)) {
                    Some(out) => Some(rest.subrange(0, n) + out),
                    None => None,
                }
            } else {
                None
            }
        }
    }
}

/// Rebuilds a payload from `base` and a delta: the delta starts with the
/// base length and the result length, each little-endian base-128, then holds
/// the instructions. Both lengths must match.
pub open spec fn apply_delta_spec(base: Seq<u8>, delta: Seq<u8>) -> Option<Seq<u8>> {
    let s = first_low(delta) as int;
    let r = after(delta, s + 1);
    let t = first_low(r) as int;
    if s < delta.len() && le_value(delta.subrange(0, s + 1)) == base.len() && t < r.len() {
        match run_delta(base, after(r, t + 1)) {
            Some(out) => if out.len() == le_value(r.subrange(0, t + 1)) {
                Some(out)
            } else {
                None
            },
            None => None,
        }
    } else {
        None
    }
}

proof fn lemma_gather_used(c: u8, d: Seq<u8>, j: nat, used: nat, off: nat, size: nat)
    requires
        used <= d.len(),
    ensures
        gather(c, d, j, used, off, size) matches Some((u, _, _)) ==> u <= d.len(),
    decreases 6 - j,
{
    if j < 6 {
        if flag_set(c, j) {
            if used < d.len() {
                let v = d[used as int] as nat * flag_weight(j);
                if j < 4 {
                    lemma_gather_used(c, d, j + 1, used + 1, off + v, size);
                } else {
                    lemma_gather_used(c, d, j + 1, used + 1, off, size + v);
                }
            }
        } else {
            lemma_gather_used(c, d, j + 1, used, off, size);
        }
    }
}

/// Rebuilds a payload from a base payload and a delta.
pub fn apply_delta(base: &[u8], delta: &[u8]) -> (r: GitResult<Vec<u8>>)
    ensures
        r is Ok <==> apply_delta_spec(base@, delta@) is Some,
        r matches Ok(out) ==> apply_delta_spec(base@, delta@) == Some(out@),
{
    let s = find_low(delta);
    proof { lemma_first_low(delta@); }
    if s >= delta.len() {
        return Err(GitError(String::from_str("Could not find a byte with a leading 0")));
    }
    let src = &delta[0..s + 1];
    assert(src@ == delta@.subrange(0, s + 1));
    let source_len = read_var_len_integer_le(src);
    match source_len {
        Some(v) => {
            if v != base.len() as u64 {
                return Err(GitError(String::from_str("Wrong source length")));
            }
        },
        None => {
            let bl = base.len();
            assert(bl as nat == base@.len());
            return Err(GitError(String::from_str("Wrong source length")));
        },
    }
    let r = &delta[s + 1..delta.len()];
    let t = find_low(r);
    proof { lemma_first_low(r@); }
    if t >= r.len() {
        return Err(GitError(String::from_str("Could not find a byte with a leading 0")));
    }
    let tgt = &r[0..t + 1];
    assert(tgt@ == r@.subrange(0, t + 1));
    assert(r@ == after(delta@, s + 1));
    let target_len = read_var_len_integer_le(tgt);
    let d = &r[t + 1..r.len()];
    assert(d@ == after(r@, t + 1));
    assert(apply_delta_spec(base@, delta@) == (match run_delta(base@, d@) {
        Some(out) => if out.len() == le_value(tgt@) {
            Some(out)
        } else {
            None
        },
        None => None,
    }));
    let mut res: Vec<u8> = Vec::new();
    let mut i: usize = 0;
    assert(after(d@, 0) =~= d@);
    assert forall|o: Seq<u8>| res@ + o =~= o by {}
    while i < d.len()
        invariant
            i <= d@.len(),
            apply_delta_spec(base@, delta@) == (match run_delta(base@, d@) {
                Some(out) => if out.len() == le_value(tgt@) {
                    Some(out)
                } else {
                    None
                },
                None => None,
            }),
            run_delta(base@, d@) == (match run_delta(base@, after(d@, i as int)) {
                Some(o) => Some(res@ + o),
                None => None::<Seq<u8>>,
            }),
        decreases d@.len() - i,
    {
        let ghost cur = after(d@, i as int);
        let ghost rest = after(cur, 1);
        let ops = &d[i + 1..d.len()];
        assert(ops@ =~= rest);
        assert(cur[0] == d@[i as int]);
        assert(cur.len() > 0);
        match parse_instruction(d[i], ops) {
            Some((used, Instruction::Copy(len, offset))) => {
                proof { lemma_gather_used(d[i as int], rest, 0, 0, 0, 0); }
                if offset > base.len() as u64 || len > base.len() as u64 - offset {
                    assert(run_delta(base@, cur) is None);
                    return Err(GitError(String::from_str("delta copy outside the base")));
                }
                let ghost old_res = res@;
                res.extend_from_slice(&base[offset as usize..(offset + len) as usize]);
                assert(after(rest, used as int) =~= after(d@, i + 1 + used));
                i = i + 1 + used;
                assert forall|o: Seq<u8>| old_res + (base@.subrange(offset as int, offset + len) + o) =~= res@ + o by {}
            },
            Some((_, Instruction::Insert(n))) => {
                if n > ops.len() {
                    assert(cur[0] < 128);
                    assert(run_delta(base@, cur) is None);
                    return Err(GitError(String::from_str("delta insert past the end")));
                }
                let ghost old_res = res@;
                res.extend_from_slice(&ops[0..n]);
                assert(after(rest, n as int) =~= after(d@, i + 1 + n));
                i = i + 1 + n;
                assert forall|o: Seq<u8>| old_res + (rest.subrange(0, n as int) + o) =~= res@ + o by {}
            },
            None => {
                return Err(GitError(String::from_str("truncated delta copy instruction")));
            },
        }
    }
    assert(after(d@, i as int) =~= Seq::<u8>::empty());
    assert(res@ + Seq::<u8>::empty() =~= res@);
    match target_len {
        Some(v) => {
            if v != res.len() as u64 {
                return Err(GitError(String::from_str("Wrong length after applying delta")));
            }
        },
        None => {
            let rl = res.len();
            assert(rl as nat == res@.len());
            return Err(GitError(String::from_str("Wrong length after applying delta")));
        },
    }
    Ok(res)
}

/// One entry of a pack stream after inflating its data.
#[derive(Debug)]
pub enum PackObjType {
    ObjCommit(Vec<u8>),
    ObjTree(Vec<u8>),
    ObjBlob(Vec<u8>),
    ObjTag(Vec<u8>),
    ObjOfsDelta(usize, Vec<u8>),
    ObjRefDelta(Sha, Vec<u8>),
}

pub ghost enum RawEntry {
    Commit(Seq<u8>),
    Tree(Seq<u8>),
    Blob(Seq<u8>),
    Tag(Seq<u8>),
    OfsDelta(nat, Seq<u8>),
    RefDelta(Seq<u8>, Seq<u8>),
}

impl View for PackObjType {
    type V = RawEntry;

    open spec fn view(&self) -> RawEntry {
        match self {
            PackObjType::ObjCommit(b) => RawEntry::Commit(b@),
            PackObjType::ObjTree(b) => RawEntry::Tree(b@),
            PackObjType::ObjBlob(b) => RawEntry::Blob(b@),
            PackObjType::ObjTag(b) => RawEntry::Tag(b@),
            PackObjType::ObjOfsDelta(o, b) => RawEntry::OfsDelta(*o as nat, b@),
            PackObjType::ObjRefDelta(h, b) => RawEntry::RefDelta(h@, b@),
        }
    }
}

/// The entry kinds 1 to 4, whose data is the payload itself.
pub open spec fn plain_entry(kind: int, out: Seq<u8>) -> RawEntry {
    if kind == 1 {
        RawEntry::Commit(out)
    } else if kind == 2 {
        RawEntry::Tree(out)
    } else if kind == 3 {
        RawEntry::Blob(out)
    } else {
        RawEntry::Tag(out)
    }
}

/// The type code of an entry: bits 4 to 6 of its first byte.
pub open spec fn entry_kind(c: u8) -> int {
    ((c / 16) % 8) as int
}

/// Reads the pack entry at the front of `b`: a header giving the type and
/// the inflated length, for deltas the base reference, then a zlib stream.
/// Gives the bytes the entry takes and its content.
pub open spec fn entry_spec(b: Seq<u8>) -> Option<(nat, RawEntry)> {
    let h = first_low(b) as int;
    let kind = entry_kind(b[0]);
    let size = (b[0] % 16) as nat + 16 * le_value(b.subrange(1, h + 1));
    let body = after(b, h + 1);
    if h < b.len() {
        if 1 <= kind <= 4 {
            match zlib_inflate(body) {
                Some((n, out)) => if out.len() == size {
                    Some(((h + 1 + n) as nat, plain_entry(kind, out)))
                } else {
                    None
                },
                None => None,
            }
        } else if kind == 6 {
            let o = first_low(body) as int;
            let off = be_inc_value(body.subrange(0, o + 1));
            if o < body.len() && off <= usize::MAX {
                match zlib_inflate(after(body, o + 1)) {
                    Some((n, out)) => if out.len() == size {
                        Some(((h + 1 + o + 1 + n) as nat, RawEntry::OfsDelta(off, out)))
                    } else {
                        None
                    },
                    None => None,
                }
            } else {
                None
            }
        } else if kind == 7 {
            if body.len() >= 20 {
                match zlib_inflate(after(body, 20)) {
                    Some((n, out)) => if out.len() == size {
                        Some(((h + 1 + 20 + n) as nat, RawEntry::RefDelta(body.subrange(0, 20), out)))
                    } else {
                        None
                    },
                    None => None,
                }
            } else {
                None
            }
        } else {
            None
        }
    } else {
        None
    }
}

/// Reads an entry header: the type code, and the inflated length when it
/// fits in a `usize`.
fn read_pack_metadata(metadata: &[u8]) -> (r: (u8, Option<usize>))
    requires
        metadata@.len() >= 1,
    ensures
        r.0 as int == entry_kind(metadata@[0]),
        r.1 is Some <==> (metadata@[0] % 16) as nat + 16 * le_value(after(metadata@, 1))
            <= usize::MAX,
        r.1 matches Some(n) ==> n as nat == (metadata@[0] % 16) as nat + 16 * le_value(
            after(metadata@, 1),
        ),
{
    let first = metadata[0];
    let obj_type_code = (first / 16) % 8;
    let little_end = (first % 16) as usize;
    match read_var_len_integer_le(&metadata[1..metadata.len()]) {
        Some(v) => {
            if v > ((u64::MAX - 15) / 16) || (v * 16 + little_end as u64) > usize::MAX as u64 {
                return (obj_type_code, None);
            }
            (obj_type_code, Some((v * 16) as usize + little_end))
        },
        None => (obj_type_code, None),
    }
}

/// Whether an inflated payload has the length its header declared.
fn length_matches(content: &Vec<u8>, len: Option<usize>) -> (r: bool)
    ensures
        len is None ==> !r,
        len matches Some(n) ==> (r <==> content@.len() == n),
{
    match len {
        Some(n) => content.len() == n,
        None => false,
    }
}

/// Reads the pack entry at the front of `bytes`; gives the bytes it takes and
/// its content.
fn read_pack_object(bytes: &[u8]) -> (r: GitResult<(usize, PackObjType)>)
    ensures
        r is Ok <==> entry_spec(bytes@) is Some,
        r matches Ok((n, e)) ==> entry_spec(bytes@) == Some((n as nat, e@)) && 0 < n <= bytes@.len(),
{
    let h = find_low(bytes);
    proof { lemma_first_low(bytes@); }
    if h >= bytes.len() {
        return Err(GitError(String::from_str("Could not find a byte with a leading 0")));
    }
    let metadata = &bytes[0..h + 1];
    assert(after(metadata@, 1) =~= bytes@.subrange(1, h + 1));
    let (obj_type_code, len) = read_pack_metadata(metadata);
    let body = &bytes[h + 1..bytes.len()];
    if obj_type_code >= 1 && obj_type_code <= 4 {
        let (compressed_length, content) = match read(body) {
            Ok(x) => x,
            Err(e) => { return Err(e); },
        };
        if !length_matches(&content, len) {
            let cl = content.len();
            assert(cl as nat == content@.len());
            return Err(GitError(String::from_str("Wrong object length")));
        }
        let e = if obj_type_code == 1 {
            PackObjType::ObjCommit(content)
        } else if obj_type_code == 2 {
            PackObjType::ObjTree(content)
        } else if obj_type_code == 3 {
            PackObjType::ObjBlob(content)
        } else {
            PackObjType::ObjTag(content)
        };
        Ok((compressed_length + h + 1, e))
    } else if obj_type_code == 6 {
        let o = find_low(body);
        proof { lemma_first_low(body@); }
        if o >= body.len() {
            return Err(GitError(String::from_str("Could not find a byte with a leading 0")));
        }
        let offset = match read_var_len_integer_be_with_increment(&body[0..o + 1]) {
            Some(v) => v,
            None => { return Err(GitError(String::from_str("offset too large"))); },
        };
        if offset > usize::MAX as u64 {
            return Err(GitError(String::from_str("offset too large")));
        }
        let (compressed_length, content) = match read(&body[o + 1..body.len()]) {
            Ok(x) => x,
            Err(e) => { return Err(e); },
        };
        if !length_matches(&content, len) {
            let cl = content.len();
            assert(cl as nat == content@.len());
            return Err(GitError(String::from_str("Wrong object length")));
        }
        Ok((compressed_length + o + 1 + h + 1, PackObjType::ObjOfsDelta(offset as usize, content)))
    } else if obj_type_code == 7 {
        if body.len() < 20 {
            return Err(GitError(String::from_str("truncated base hash")));
        }
        let mut sha: Sha = [0u8; 20];
        let mut k: usize = 0;
        while k < 20
            invariant
                k <= 20,
                body@.len() >= 20,
                forall|j: int| 0 <= j < k ==> sha@[j] == body@[j],
            decreases 20 - k,
        {
            sha[k] = body[k];
            k = k + 1;
        }
        assert(sha@ =~= body@.subrange(0, 20));
        let (compressed_length, content) = match read(&body[20..body.len()]) {
            Ok(x) => x,
            Err(e) => { return Err(e); },
        };
        if !length_matches(&content, len) {
            let cl = content.len();
            assert(cl as nat == content@.len());
            return Err(GitError(String::from_str("Wrong object length")));
        }
        Ok((compressed_length + 20 + h + 1, PackObjType::ObjRefDelta(sha, content)))
    } else {
        Err(GitError(String::from_str("Unrecognized object type")))
    }
}

/// A decoded object with its hash and its payload.
pub ghost struct RecordModel {
    pub hash: Seq<u8>,
    pub obj: ObjectModel,
    pub payload: Seq<u8>,
}

/// What the decoder knows while it reads a pack: the hash of the object that
/// starts at each position read so far, and the objects by hash.
pub ghost struct PackState {
    pub offsets: Seq<(int, Seq<u8>)>,
    pub objects: Seq<RecordModel>,
}

/// The hash registered for the entry at `pos`.
pub open spec fn find_offset(offs: Seq<(int, Seq<u8>)>, pos: int) -> Option<Seq<u8>>
    decreases offs.len(),
{
    if offs.len() == 0 {
        None
    } else if offs.last().0 == pos {
        Some(offs.last().1)
    } else {
        find_offset(offs.drop_last(), pos)
    }
}

/// Where the object with hash `h` stands.
pub open spec fn find_object(objs: Seq<RecordModel>, h: Seq<u8>) -> Option<int>
    decreases objs.len(),
{
    if objs.len() == 0 {
        None
    } else if objs.last().hash == h {
        Some(objs.len() - 1)
    } else {
        find_object(objs.drop_last(), h)
    }
}

/// Adds a record, replacing the one with the same hash if there is one.
pub open spec fn upsert(objs: Seq<RecordModel>, rec: RecordModel) -> Seq<RecordModel> {
    match find_object(objs, rec.hash) {
        Some(j) => objs.update(j, rec),
        None => objs.push(rec),
    }
}

/// Records a decoded object found at `pos`.
pub open spec fn register(st: PackState, pos: int, obj: ObjectModel, payload: Seq<u8>) -> PackState {
    let h = object_hash(obj);
    PackState {
        offsets: st.offsets.push((pos, h)),
        objects: upsert(st.objects, RecordModel { hash: h, obj, payload }),
    }
}

/// Resolves a delta against the base with hash `base`: the rebuilt payload
/// is read as the base's kind.
pub open spec fn resolve(st: PackState, pos: int, base: Option<Seq<u8>>, delta: Seq<u8>) -> Option<
    PackState,
> {
    match base {
        Some(h) => match find_object(st.objects, h) {
            Some(j) => match apply_delta_spec(st.objects[j].payload, delta) {
                Some(p) => match payload_spec(kind_of(st.objects[j].obj), p) {
                    Some(o) => Some(register(st, pos, o, p)),
                    None => None,
                },
                None => None,
            },
            None => None,
        },
        None => None,
    }
}

/// Reads a plain payload of a known kind and records it.
pub open spec fn add_plain(st: PackState, pos: int, kind: ObjKind, p: Seq<u8>) -> Option<PackState> {
    match payload_spec(kind, p) {
        Some(o) => Some(register(st, pos, o, p)),
        None => None,
    }
}

/// Applies the entry read at `pos`.
pub open spec fn step(st: PackState, pos: int, e: RawEntry) -> Option<PackState> {
    match e {
        RawEntry::Commit(p) => add_plain(st, pos, ObjKind::Commit, p),
        RawEntry::Tree(p) => add_plain(st, pos, ObjKind::Tree, p),
        RawEntry::Blob(p) => add_plain(st, pos, ObjKind::Blob, p),
        RawEntry::Tag(_) => Some(st),
        RawEntry::OfsDelta(off, d) => resolve(
            st,
            pos,
            if off <= pos {
                find_offset(st.offsets, pos - off)
            } else {
                None
            },
            d,
        ),
        RawEntry::RefDelta(h, d) => resolve(st, pos, Some(h), d),
    }
}

/// Reads entries from `pos` on while more than the 20-byte trailer is left;
/// gives the final tables and `count` plus the number of entries read, tags
/// included.
pub open spec fn run_pack(pack: Seq<u8>, pos: int, st: PackState, count: nat) -> Option<
    (PackState, nat),
>
    decreases pack.len() - pos,
{
    if 0 <= pos && pos + 20 < pack.len() {
        match entry_spec(after(pack, pos)) {
            Some((n, e)) => if 0 < n && pos + n <= pack.len() {
                match step(st, pos, e) {
                    Some(st2) => run_pack(pack, pos + n, st2, count + 1),
                    None => None,
                }
            } else {
                None
            },
            None => None,
        }
    } else {
        Some((st, count))
    }
}

/// The object count a pack header declares: bytes 8 to 11, big-endian.
pub open spec fn declared_count(pack: Seq<u8>) -> nat {
    ((pack[8] as nat * 256 + pack[9] as nat) * 256 + pack[10] as nat) * 256 + pack[11] as nat
}

/// `PACK` followed by version 2.
pub open spec fn pack_magic() -> Seq<u8> {
    seq![80u8, 65, 67, 75, 0, 0, 0, 2]
}

/// Decodes a whole pack: a valid header, every entry read and applied, and as
/// many entries read as the header declares. Tags count as entries but give
/// no object.
pub open spec fn parse_pack_spec(pack: Seq<u8>) -> Option<Seq<RecordModel>> {
    if pack.len() >= 12 && pack.subrange(0, 8) == pack_magic() {
        match run_pack(pack, 12, PackState { offsets: seq![], objects: seq![] }, 0) {
            Some((st, count)) => if count == declared_count(pack) {
                Some(st.objects)
            } else {
                None
            },
            None => None,
        }
    } else {
        None
    }
}

/// A decoded object with its hash and payload, as the decoder keeps it.
pub struct PackRecord {
    pub hash: Sha,
    pub object: Object,
    pub payload: Vec<u8>,
}

impl View for PackRecord {
    type V = RecordModel;

    open spec fn view(&self) -> RecordModel {
        RecordModel { hash: self.hash@, obj: self.object@, payload: self.payload@ }
    }
}

pub open spec fn records_view(v: Seq<PackRecord>) -> Seq<RecordModel> {
    v.map_values(|r: PackRecord| r@)
}

pub open spec fn offsets_view(v: Seq<(usize, Sha)>) -> Seq<(int, Seq<u8>)> {
    v.map_values(|p: (usize, Sha)| (p.0 as int, p.1@))
}

fn sha_eq(a: &Sha, b: &Sha) -> (r: bool)
    ensures
        r <==> a@ == b@,
{
    let mut i: usize = 0;
    while i < 20
        invariant
            i <= 20,
            a@.len() == 20,
            b@.len() == 20,
            forall|k: int| 0 <= k < i ==> a@[k] == b@[k],
        decreases 20 - i,
    {
        if a[i] != b[i] {
            return false;
        }
        i = i + 1;
    }
    assert(a@ =~= b@);
    true
}

fn lookup_offset(offsets: &Vec<(usize, Sha)>, pos: usize) -> (r: Option<Sha>)
    ensures
        r matches Some(h) ==> find_offset(offsets_view(offsets@), pos as int) == Some(h@),
        r is None ==> find_offset(offsets_view(offsets@), pos as int) is None,
{
    let mut k: usize = offsets.len();
    assert(offsets_view(offsets@).subrange(0, k as int) =~= offsets_view(offsets@));
    while k > 0
        invariant
            k <= offsets@.len(),
            find_offset(offsets_view(offsets@), pos as int) == find_offset(
                offsets_view(offsets@).subrange(0, k as int),
                pos as int,
            ),
        decreases k,
    {
        let ghost s = offsets_view(offsets@).subrange(0, k as int);
        assert(s.drop_last() =~= offsets_view(offsets@).subrange(0, k - 1));
        if offsets[k - 1].0 == pos {
            return Some(offsets[k - 1].1);
        }
        k = k - 1;
    }
    None
}

fn lookup_object(objects: &Vec<PackRecord>, h: &Sha) -> (r: Option<usize>)
    ensures
        r matches Some(j) ==> find_object(records_view(objects@), h@) == Some(j as int) && j
            < objects@.len(),
        r is None ==> find_object(records_view(objects@), h@) is None,
{
    let mut k: usize = objects.len();
    assert(records_view(objects@).subrange(0, k as int) =~= records_view(objects@));
    while k > 0
        invariant
            k <= objects@.len(),
            find_object(records_view(objects@), h@) == find_object(
                records_view(objects@).subrange(0, k as int),
                h@,
            ),
        decreases k,
    {
        let ghost s = records_view(objects@).subrange(0, k as int);
        assert(s.drop_last() =~= records_view(objects@).subrange(0, k - 1));
        if sha_eq(&objects[k - 1].hash, h) {
            return Some(k - 1);
        }
        k = k - 1;
    }
    None
}

fn register_exec(
    offsets: &mut Vec<(usize, Sha)>,
    objects: &mut Vec<PackRecord>,
    pos: usize,
    object: Object,
    payload: Vec<u8>,
)
    ensures
        (PackState { offsets: offsets_view(final(offsets)@), objects: records_view(final(objects)@) })
            == register(
            PackState { offsets: offsets_view(old(offsets)@), objects: records_view(old(objects)@) },
            pos as int,
            object@,
            payload@,
        ),
{
    let (sha, _) = object.encode();
    let ghost o = object@;
    let ghost p = payload@;
    offsets.push((pos, sha));
    assert(offsets_view(final(offsets)@) =~= offsets_view(old(offsets)@).push((pos as int, sha@)));
    let rec = PackRecord { hash: sha, object, payload };
    assert(rec@ == RecordModel { hash: object_hash(o), obj: o, payload: p });
    match lookup_object(objects, &sha) {
        Some(j) => {
            objects.set(j, rec);
            assert(records_view(final(objects)@) =~= records_view(old(objects)@).update(j as int, rec@));
        },
        None => {
            objects.push(rec);
            assert(records_view(final(objects)@) =~= records_view(old(objects)@).push(rec@));
        },
    }
}

pub open spec fn state_of(offsets: Seq<(usize, Sha)>, objects: Seq<PackRecord>) -> PackState {
    PackState { offsets: offsets_view(offsets), objects: records_view(objects) }
}

fn resolve_exec(
    offsets: &mut Vec<(usize, Sha)>,
    objects: &mut Vec<PackRecord>,
    pos: usize,
    base: &Sha,
    delta: &[u8],
) -> (r: GitResult<()>)
    ensures
        r is Ok <==> resolve(state_of(old(offsets)@, old(objects)@), pos as int, Some(base@), delta@)
            is Some,
        r is Ok ==> resolve(state_of(old(offsets)@, old(objects)@), pos as int, Some(base@), delta@)
            == Some(state_of(final(offsets)@, final(objects)@)),
{
    let j = match lookup_object(objects, base) {
        Some(j) => j,
        None => { return Err(GitError(String::from_str("Could not find the base object"))); },
    };
    let content = match apply_delta(&objects[j].payload, delta) {
        Ok(c) => c,
        Err(e) => { return Err(e); },
    };
    let kind = objects[j].object.kind();
    let unpacked = match Object::decode_payload(kind, &content) {
        Ok(o) => o,
        Err(e) => { return Err(e); },
    };
    register_exec(offsets, objects, pos, unpacked, content);
    Ok(())
}

fn add_plain_exec(
    offsets: &mut Vec<(usize, Sha)>,
    objects: &mut Vec<PackRecord>,
    pos: usize,
    kind: ObjKind,
    content: Vec<u8>,
) -> (r: GitResult<()>)
    ensures
        r is Ok <==> add_plain(state_of(old(offsets)@, old(objects)@), pos as int, kind, content@)
            is Some,
        r is Ok ==> add_plain(state_of(old(offsets)@, old(objects)@), pos as int, kind, content@)
            == Some(state_of(final(offsets)@, final(objects)@)),
{
    let decoded = match Object::decode_payload(kind, &content) {
        Ok(o) => o,
        Err(e) => { return Err(e); },
    };
    register_exec(offsets, objects, pos, decoded, content);
    Ok(())
}

/// Applies one entry read at `pos` to the decoder's tables.
fn apply_entry(
    offsets: &mut Vec<(usize, Sha)>,
    objects: &mut Vec<PackRecord>,
    i: usize,
    obj: PackObjType,
) -> (r: GitResult<()>)
    ensures
        r is Ok <==> step(state_of(old(offsets)@, old(objects)@), i as int, obj@) is Some,
        r is Ok ==> step(state_of(old(offsets)@, old(objects)@), i as int, obj@) == Some(
            state_of(final(offsets)@, final(objects)@),
        ),
{
    match obj {
        PackObjType::ObjCommit(content) => add_plain_exec(
            offsets,
            objects,
            i,
            ObjKind::Commit,
            content,
        ),
        PackObjType::ObjTree(content) => add_plain_exec(
            offsets,
            objects,
            i,
            ObjKind::Tree,
            content,
        ),
        PackObjType::ObjBlob(content) => add_plain_exec(
            offsets,
            objects,
            i,
            ObjKind::Blob,
            content,
        ),
        PackObjType::ObjTag(_) => Ok(()),
        PackObjType::ObjOfsDelta(offset, delta) => {
            if offset > i {
                Err(GitError(String::from_str("Could not find object with offset")))
            } else {
                match lookup_offset(offsets, i - offset) {
                    Some(base_sha) => resolve_exec(
                        offsets,
                        objects,
                        i,
                        &base_sha,
                        delta.as_slice(),
                    ),
                    None => Err(GitError(String::from_str("Could not find object with offset"))),
                }
            }
        },
        PackObjType::ObjRefDelta(base_sha, delta) => resolve_exec(
            offsets,
            objects,
            i,
            &base_sha,
            delta.as_slice(),
        ),
    }
}

/// Decodes a pack stream held in memory into its objects, each paired with
/// the hexadecimal form of its hash. Any malformed entry, unresolved delta
/// base or count mismatch fails the whole pack.
pub fn parse_pack(pack: &[u8]) -> (r: GitResult<Vec<(String, Object)>>)
    ensures
        r is Ok <==> parse_pack_spec(pack@) is Some,
        r matches Ok(v) ==> (parse_pack_spec(pack@) matches Some(recs) && v@.len() == recs.len()
            && forall|j: int|
            0 <= j < recs.len() ==> (#[trigger] v@[j]).0@ == hex_chars(recs[j].hash) && v@[j].1@
                == recs[j].obj),
{
    if pack.len() < 12 || pack[0] != 80 || pack[1] != 65 || pack[2] != 67 || pack[3] != 75
        || pack[4] != 0 || pack[5] != 0 || pack[6] != 0 || pack[7] != 2 {
        proof {
            if pack@.len() >= 12 && pack@.subrange(0, 8) == pack_magic() {
                assert(pack@[0] == pack@.subrange(0, 8)[0]);
                assert(pack@[1] == pack@.subrange(0, 8)[1]);
                assert(pack@[2] == pack@.subrange(0, 8)[2]);
                assert(pack@[3] == pack@.subrange(0, 8)[3]);
                assert(pack@[4] == pack@.subrange(0, 8)[4]);
                assert(pack@[5] == pack@.subrange(0, 8)[5]);
                assert(pack@[6] == pack@.subrange(0, 8)[6]);
                assert(pack@[7] == pack@.subrange(0, 8)[7]);
            }
        }
        return Err(GitError(String::from_str("No PACK header in the pack file")));
    }
    assert(pack@.subrange(0, 8) =~= pack_magic());
    let count: u64 = ((pack[8] as u64 * 256 + pack[9] as u64) * 256 + pack[10] as u64) * 256
        + pack[11] as u64;
    let mut offsets: Vec<(usize, Sha)> = Vec::new();
    let mut objects: Vec<PackRecord> = Vec::new();
    let mut i: usize = 12;
    let mut entries: usize = 0;
    let ghost init = PackState { offsets: seq![], objects: seq![] };
    assert(offsets_view(offsets@) =~= Seq::<(int, Seq<u8>)>::empty());
    assert(records_view(objects@) =~= Seq::<RecordModel>::empty());
    assert(state_of(offsets@, objects@) == init);
    while i < pack.len() && pack.len() - i > 20
        invariant
            12 <= i <= pack@.len(),
            pack@.subrange(0, 8) == pack_magic(),
            init == (PackState { offsets: seq![], objects: seq![] }),
            entries <= i,
            run_pack(pack@, 12, init, 0) == run_pack(
                pack@,
                i as int,
                state_of(offsets@, objects@),
                entries as nat,
            ),
        decreases pack@.len() - i,
    {
        let ghost st = state_of(offsets@, objects@);
        let rest = &pack[i..pack.len()];
        assert(rest@ == after(pack@, i as int));
        let (len, obj) = match read_pack_object(rest) {
            Ok(x) => x,
            Err(e) => {
                assert(run_pack(pack@, i as int, st, entries as nat) is None);
                return Err(e);
            },
        };
        let ghost e = obj@;
        let res = apply_entry(&mut offsets, &mut objects, i, obj);
        match res {
            Ok(()) => {},
            Err(e) => {
                assert(run_pack(pack@, i as int, st, entries as nat) is None);
                return Err(e);
            },
        }
        assert(step(st, i as int, e) == Some(state_of(offsets@, objects@)));
        i = i + len;
        entries = entries + 1;
    }
    let ghost fin = state_of(offsets@, objects@);
    assert(run_pack(pack@, i as int, fin, entries as nat) == Some((fin, entries as nat)));
    if entries as u64 != count {
        return Err(GitError(String::from_str("Wrong number of objects in a pack")));
    }
    let ghost recs = records_view(objects@);
    let mut reversed: Vec<PackRecord> = Vec::new();
    while objects.len() > 0
        invariant
            objects@.len() + reversed@.len() == recs.len(),
            forall|j: int| 0 <= j < objects@.len() ==> (#[trigger] objects@[j])@ == recs[j],
            forall|j: int|
                0 <= j < reversed@.len() ==> (#[trigger] reversed@[j])@ == recs[recs.len() - 1 - j],
        decreases objects@.len(),
    {
        let rec = objects.pop().unwrap();
        reversed.push(rec);
    }
    let mut out: Vec<(String, Object)> = Vec::new();
    while reversed.len() > 0
        invariant
            out@.len() + reversed@.len() == recs.len(),
            forall|j: int|
                0 <= j < reversed@.len() ==> (#[trigger] reversed@[j])@ == recs[recs.len() - 1 - j],
            forall|j: int|
                0 <= j < out@.len() ==> (#[trigger] out@[j]).0@ == hex_chars(recs[j].hash)
                    && out@[j].1@ == recs[j].obj,
        decreases reversed@.len(),
    {
        let rec = reversed.pop().unwrap();
        let hex = to_hex(&rec.hash);
        out.push((hex, rec.object));
    }
    Ok(out)
}

/// The result length a delta declares: its second base-128 number.
pub open spec fn delta_target_len(delta: Seq<u8>) -> nat {
    let s = first_low(delta) as int;
    let r = after(delta, s + 1);
    le_value(r.subrange(0, first_low(r) as int + 1))
}

/// A delta only ever rebuilds a payload of the length it declares.
pub proof fn lemma_delta_target_length(base: Seq<u8>, delta: Seq<u8>)
    ensures
        apply_delta_spec(base, delta) matches Some(out) ==> out.len() == delta_target_len(delta),
{
}

/// Every record of the decoder's tables is filed under its object's hash.
pub open spec fn hashes_match(objs: Seq<RecordModel>) -> bool {
    forall|j: int| 0 <= j < objs.len() ==> (#[trigger] objs[j]).hash == object_hash(objs[j].obj)
}

/// No two records of the decoder's tables share a hash.
pub open spec fn hashes_distinct(objs: Seq<RecordModel>) -> bool {
    forall|i: int, j: int|
        0 <= i < objs.len() && 0 <= j < objs.len() && i != j ==> (#[trigger] objs[i]).hash
            != (#[trigger] objs[j]).hash
}

proof fn lemma_find_object_range(objs: Seq<RecordModel>, h: Seq<u8>)
    ensures
        find_object(objs, h) matches Some(j) ==> 0 <= j < objs.len() && objs[j].hash == h,
        find_object(objs, h) is None ==> forall|i: int| 0 <= i < objs.len() ==> (#[trigger] objs[i]).hash != h,
    decreases objs.len(),
{
    if objs.len() > 0 {
        lemma_find_object_range(objs.drop_last(), h);
        if find_object(objs, h) is None {
            assert forall|i: int| 0 <= i < objs.len() implies (#[trigger] objs[i]).hash != h by {
                if i < objs.len() - 1 {
                    assert(objs[i] == objs.drop_last()[i]);
                }
            }
        } else if objs.last().hash != h {
            let j = find_object(objs.drop_last(), h)->Some_0;
            assert(objs[j] == objs.drop_last()[j]);
        }
    }
}

proof fn lemma_register_keeps(st: PackState, pos: int, obj: ObjectModel, payload: Seq<u8>)
    requires
        hashes_match(st.objects),
        hashes_distinct(st.objects),
    ensures
        hashes_match(register(st, pos, obj, payload).objects),
        hashes_distinct(register(st, pos, obj, payload).objects),
{
    let rec = RecordModel { hash: object_hash(obj), obj, payload };
    lemma_find_object_range(st.objects, rec.hash);
    let objs = register(st, pos, obj, payload).objects;
    assert forall|j: int| 0 <= j < objs.len() implies (#[trigger] objs[j]).hash == object_hash(
        objs[j].obj,
    ) by {
        if j < st.objects.len() && objs[j] != rec {
            assert(objs[j] == st.objects[j]);
        }
    }
    assert forall|i: int, j: int|
        0 <= i < objs.len() && 0 <= j < objs.len() && i != j implies (#[trigger] objs[i]).hash
            != (#[trigger] objs[j]).hash by {
        match find_object(st.objects, rec.hash) {
            Some(k) => {
                if i != k {
                    assert(objs[i] == st.objects[i]);
                }
                if j != k {
                    assert(objs[j] == st.objects[j]);
                }
            },
            None => {
                if i < st.objects.len() {
                    assert(objs[i] == st.objects[i]);
                }
                if j < st.objects.len() {
                    assert(objs[j] == st.objects[j]);
                }
            },
        }
    }
}

proof fn lemma_run_pack_keeps(pack: Seq<u8>, pos: int, st: PackState, count: nat)
    requires
        hashes_match(st.objects),
        hashes_distinct(st.objects),
    ensures
        run_pack(pack, pos, st, count) matches Some((fin, _)) ==> hashes_match(fin.objects)
            && hashes_distinct(fin.objects),
    decreases pack.len() - pos,
{
    if 0 <= pos && pos + 20 < pack.len() {
        if let Some((n, e)) = entry_spec(after(pack, pos)) {
            if 0 < n && pos + n <= pack.len() {
                if let Some(st2) = step(st, pos, e) {
                    match e {
                        RawEntry::Tag(_) => {},
                        RawEntry::Commit(p) => {
                            if let Some(o) = payload_spec(ObjKind::Commit, p) {
                                lemma_register_keeps(st, pos, o, p);
                            }
                        },
                        RawEntry::Tree(p) => {
                            if let Some(o) = payload_spec(ObjKind::Tree, p) {
                                lemma_register_keeps(st, pos, o, p);
                            }
                        },
                        RawEntry::Blob(p) => {
                            if let Some(o) = payload_spec(ObjKind::Blob, p) {
                                lemma_register_keeps(st, pos, o, p);
                            }
                        },
                        RawEntry::OfsDelta(off, d) => {
                            let base = if off <= pos {
                                find_offset(st.offsets, pos - off)
                            } else {
                                None
                            };
                            lemma_resolve_keeps(st, pos, base, d);
                        },
                        RawEntry::RefDelta(h, d) => {
                            lemma_resolve_keeps(st, pos, Some(h), d);
                        },
                    }
                    lemma_run_pack_keeps(pack, pos + n, st2, count + 1);
                }
            }
        }
    }
}

proof fn lemma_resolve_keeps(st: PackState, pos: int, base: Option<Seq<u8>>, delta: Seq<u8>)
    requires
        hashes_match(st.objects),
        hashes_distinct(st.objects),
    ensures
        resolve(st, pos, base, delta) matches Some(st2) ==> hashes_match(st2.objects)
            && hashes_distinct(st2.objects),
{
    if let Some(h) = base {
        if let Some(j) = find_object(st.objects, h) {
            if let Some(p) = apply_delta_spec(st.objects[j].payload, delta) {
                if let Some(o) = payload_spec(kind_of(st.objects[j].obj), p) {
                    lemma_register_keeps(st, pos, o, p);
                }
            }
        }
    }
}

/// A pack decodes only when it holds exactly as many entries as its header
/// declares; each decoded object is filed under the hash of its own canonical
/// encoding, no two under one hash.
pub proof fn lemma_pack_result(pack: Seq<u8>)
    ensures
        parse_pack_spec(pack) matches Some(recs) ==> (run_pack(
            pack,
            12,
            PackState { offsets: seq![], objects: seq![] },
            0,
        ) matches Some((st, count)) && count == declared_count(pack) && st.objects == recs)
            && hashes_match(recs) && hashes_distinct(recs),
{
    let init = PackState { offsets: seq![], objects: seq![] };
    lemma_run_pack_keeps(pack, 12, init, 0);
}

} // verus!
