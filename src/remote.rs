//! The fetch protocol's text: framed lines, the request body, the ref
//! advertisement and the acknowledgement that precedes a pack.

use vstd::prelude::*;
use vstd::utf8::*;

use crate::git_error::{GitError, GitResult};
use crate::object::{hex_chars, hex_digit, starts_with, Object};
use crate::pack::{parse_pack, parse_pack_spec};
use crate::parser::{
    after, find_byte, lemma_until, lemma_until_unique, prefix_until, take_until, until,
};
use crate::text::{all_ascii, lemma_ascii_utf8, string_bytes, string_from_utf8, utf8_string};

verus! {

broadcast use vstd::utf8::group_utf8_lib;

/// A reference the remote advertises: a hash and a name.
#[derive(Debug)]
pub struct Ref {
    pub sha: String,
    pub name: String,
}

/// The lowercase hexadecimal digits of `n`, without leading zeros.
pub open spec fn hex_num(n: nat) -> Seq<u8>
    decreases n,
{
    if n < 16 {
        seq![hex_digit(n as u8)]
    } else {
        hex_num(n / 16) + seq![hex_digit((n % 16) as u8)]
    }
}

/// Left-pads with zeros to four digits.
pub open spec fn pad4(d: Seq<u8>) -> Seq<u8> {
    if d.len() < 4 {
        Seq::new((4 - d.len()) as nat, |i: int| 48u8) + d
    } else {
        d
    }
}

/// One framed line: four hex digits giving the payload length plus five,
/// the payload, a newline.
pub open spec fn pkt_line(msg: Seq<u8>) -> Seq<u8> {
    pad4(hex_num(msg.len() + 5)) + msg + seq![10u8]
}

pub open spec fn pkt_lines(ls: Seq<Seq<char>>) -> Seq<u8>
    decreases ls.len(),
{
    if ls.len() == 0 {
        seq![]
    } else {
        pkt_lines(ls.drop_last()) + pkt_line(encode_utf8(ls.last()))
    }
}

/// The flush line `0000` and the framed `done`.
pub open spec fn flush_done() -> Seq<u8> {
    seq![48u8, 48, 48, 48, 48, 48, 48, 57, 100, 111, 110, 101, 10]
}

proof fn lemma_hex_num_ascii(n: nat)
    ensures
        all_ascii(hex_num(n)),
        hex_num(n).len() > 0,
    decreases n,
{
    if n >= 16 {
        lemma_hex_num_ascii(n / 16);
        let s = hex_num(n);
        let p = hex_num(n / 16);
        assert forall|i: int| 0 <= i < s.len() implies #[trigger] s[i] < 128 by {
            if i < p.len() {
                assert(s[i] == p[i]);
            }
        }
    }
}

fn push_hex_num(out: &mut Vec<u8>, n: u64)
    ensures
        final(out)@ == old(out)@ + hex_num(n as nat),
    decreases n,
{
    if n >= 16 {
        push_hex_num(out, n / 16);
    }
    let d: u8 = (n % 16) as u8;
    let c: u8 = if d < 10 {
        48 + d
    } else {
        87 + d
    };
    out.push(c);
    assert(final(out)@ =~= old(out)@ + hex_num(n as nat));
}

/// Frames one line: `format!("{:04x}{}\n", len + 5, msg)`.
pub fn encode_pkt(msg: String) -> (r: String)
    requires
        encode_utf8(msg@).len() <= usize::MAX - 5,
    ensures
        encode_utf8(r@) == pkt_line(encode_utf8(msg@)),
{
    let m = string_bytes(&msg);
    let mut digits: Vec<u8> = Vec::new();
    let total: u64 = m.len() as u64 + 5;
    push_hex_num(&mut digits, total);
    proof {
        lemma_hex_num_ascii(total as nat);
    }
    let mut out: Vec<u8> = Vec::new();
    let mut pad: usize = digits.len();
    while pad < 4
        invariant
            digits@.len() <= pad,
            pad <= 4 || pad == digits@.len(),
            out@ == Seq::new((pad - digits@.len()) as nat, |i: int| 48u8),
        decreases 4 - pad,
    {
        out.push(48u8);
        pad = pad + 1;
        assert(out@ =~= Seq::new((pad - digits@.len()) as nat, |i: int| 48u8));
    }
    out.extend_from_slice(digits.as_slice());
    assert(out@ =~= pad4(digits@)) by {
        if digits@.len() >= 4 {
            assert(Seq::new(0, |i: int| 48u8) =~= Seq::<u8>::empty());
        }
    }
    assert(all_ascii(out@)) by {
        assert forall|i: int| 0 <= i < out@.len() implies #[trigger] out@[i] < 128 by {
            if i >= out@.len() - digits@.len() {
                assert(out@[i] == digits@[i - (out@.len() - digits@.len())]);
            }
        }
    }
    let ghost head = out@;
    proof {
        lemma_ascii_utf8(head);
    }
    out.extend_from_slice(m.as_slice());
    out.push(10u8);
    proof {
        lemma_ascii_utf8(seq![10u8]);
        assert(out@ =~= head + m@ + seq![10u8]);
        valid_utf8_concat(head, m@);
        valid_utf8_concat(head + m@, seq![10u8]);
    }
    utf8_string(out)
}

/// The request body of a fetch: each wanted line framed, then a flush line
/// and a framed `done`.
pub fn pkt_message(lines: Vec<String>) -> (r: String)
    requires
        forall|k: int| 0 <= k < lines@.len() ==> encode_utf8(#[trigger] lines@[k]@).len() <= usize::MAX - 5,
    ensures
        encode_utf8(r@) == pkt_lines(lines@.map_values(|s: String| s@)) + flush_done(),
{
    let mut out: Vec<u8> = Vec::new();
    let mut k: usize = 0;
    let ghost ls = lines@.map_values(|s: String| s@);
    while k < lines.len()
        invariant
            k <= lines@.len(),
            ls == lines@.map_values(|s: String| s@),
            forall|j: int| 0 <= j < lines@.len() ==> encode_utf8(#[trigger] lines@[j]@).len() <= usize::MAX - 5,
            out@ == pkt_lines(ls.subrange(0, k as int)),
        decreases lines@.len() - k,
    {
        let line = lines[k].as_str().to_owned();
        assert(line@ == lines@[k as int]@);
        let framed = encode_pkt(line);
        out.extend_from_slice(string_bytes(&framed).as_slice());
        let ghost sub = ls.subrange(0, k as int + 1);
        assert(sub.drop_last() =~= ls.subrange(0, k as int));
        k = k + 1;
        assert(out@ =~= pkt_lines(ls.subrange(0, k as int)));
    }
    assert(ls.subrange(0, k as int) =~= ls);
    proof {
        lemma_pkt_lines_utf8(ls);
        lemma_ascii_utf8(flush_done());
        valid_utf8_concat(out@, flush_done());
    }
    let ghost before = out@;
    out.extend_from_slice(&[48u8, 48, 48, 48, 48, 48, 48, 57, 100, 111, 110, 101, 10]);
    assert(out@ =~= before + flush_done());
    utf8_string(out)
}

proof fn lemma_pkt_lines_utf8(ls: Seq<Seq<char>>)
    ensures
        valid_utf8(pkt_lines(ls)),
    decreases ls.len(),
{
    if ls.len() > 0 {
        lemma_pkt_lines_utf8(ls.drop_last());
        let m = encode_utf8(ls.last());
        let h = pad4(hex_num(m.len() + 5));
        lemma_hex_num_ascii((m.len() + 5) as nat);
        assert(all_ascii(h)) by {
            let d = hex_num((m.len() + 5) as nat);
            assert forall|i: int| 0 <= i < h.len() implies #[trigger] h[i] < 128 by {
                if d.len() < 4 && i >= 4 - d.len() {
                    assert(h[i] == d[i - (4 - d.len())]);
                }
            }
        }
        lemma_ascii_utf8(h);
        lemma_ascii_utf8(seq![10u8]);
        assert(pkt_line(m) == h + m + seq![10u8]);
        valid_utf8_concat(h, m);
        valid_utf8_concat(h + m, seq![10u8]);
        valid_utf8_concat(pkt_lines(ls.drop_last()), pkt_line(m));
    }
}

/// `want ` followed by the hash.
pub open spec fn want_line(hash: Seq<char>) -> Seq<u8> {
    seq![119u8, 97, 110, 116, 32] + encode_utf8(hash)
}

/// The body that asks the remote for a pack holding `wanted`: one framed
/// `want` line, a flush line, a framed `done`.
pub fn fetch_request_body(wanted: &String) -> (r: String)
    requires
        encode_utf8(wanted@).len() <= usize::MAX - 10,
    ensures
        encode_utf8(r@) == pkt_line(want_line(wanted@)) + flush_done(),
{
    let mut b: Vec<u8> = Vec::new();
    b.extend_from_slice(&[119u8, 97, 110, 116, 32]);
    let ghost head = b@;
    assert(head =~= seq![119u8, 97, 110, 116, 32]);
    proof {
        assert(all_ascii(head));
        lemma_ascii_utf8(head);
        valid_utf8_concat(head, encode_utf8(wanted@));
    }
    b.extend_from_slice(string_bytes(wanted).as_slice());
    assert(b@ =~= want_line(wanted@));
    let line = utf8_string(b);
    let ghost lv = line@;
    let mut lines: Vec<String> = Vec::new();
    lines.push(line);
    assert(lines@.map_values(|s: String| s@) =~= seq![lv]);
    assert(seq![lv].drop_last() =~= Seq::<Seq<char>>::empty());
    assert(encode_utf8(lv) == want_line(wanted@));
    assert(seq![lv].last() == lv);
    assert(pkt_lines(Seq::<Seq<char>>::empty()) == Seq::<u8>::empty());
    assert(pkt_lines(seq![lv]) =~= pkt_line(want_line(wanted@)));
    pkt_message(lines)
}

/// The single acknowledgement that must open the remote's answer.
pub open spec fn nak() -> Seq<u8> {
    seq![48u8, 48, 48, 56, 78, 65, 75, 10]
}

/// Checks the acknowledgement at the front of the remote's answer to a fetch
/// and decodes the pack stream that follows it.
pub fn parse_upload_pack_response(resp: &[u8]) -> (r: GitResult<Vec<(String, Object)>>)
    ensures
        r is Ok <==> (starts_with(resp@, nak()) && parse_pack_spec(after(resp@, 8)) is Some),
        r matches Ok(v) ==> (parse_pack_spec(after(resp@, 8)) matches Some(recs) && v@.len()
            == recs.len() && forall|j: int|
            0 <= j < recs.len() ==> (#[trigger] v@[j]).0@ == hex_chars(recs[j].hash) && v@[j].1@
                == recs[j].obj),
{
    let expected: [u8; 8] = [48u8, 48, 48, 56, 78, 65, 75, 10];
    assert(expected@ == nak());
    if resp.len() < 8 {
        return Err(GitError(String::from_str("No NAK header in response")));
    }
    let mut k: usize = 0;
    while k < 8
        invariant
            k <= 8,
            resp@.len() >= 8,
            expected@ == nak(),
            forall|j: int| 0 <= j < k ==> resp@[j] == nak()[j],
        decreases 8 - k,
    {
        if resp[k] != expected[k] {
            assert(resp@.subrange(0, 8)[k as int] != nak()[k as int]);
            return Err(GitError(String::from_str("No NAK header in response")));
        }
        k = k + 1;
    }
    assert(resp@.subrange(0, 8) =~= nak());
    let rest = &resp[8..resp.len()];
    assert(rest@ == after(resp@, 8));
    parse_pack(rest)
}

/// The line at the front of `b`: the bytes before the first newline, less a
/// carriage return that ends them when a newline follows.
pub open spec fn first_line(b: Seq<u8>) -> Seq<u8> {
    let l = prefix_until(b, 10u8);
    if until(b, 10u8) < b.len() && l.len() > 0 && l.last() == 13u8 {
        l.drop_last()
    } else {
        l
    }
}

/// What follows the first line and its newline.
pub open spec fn after_line(b: Seq<u8>) -> Seq<u8> {
    let n = until(b, 10u8) as int;
    if n < b.len() {
        after(b, n + 1)
    } else {
        seq![]
    }
}

/// Drops every leading flush line `0000`.
pub open spec fn trim_flush(b: Seq<u8>) -> Seq<u8>
    decreases b.len(),
{
    if b.len() >= 4 && b.subrange(0, 4) == seq![48u8, 48, 48, 48] {
        trim_flush(after(b, 4))
    } else {
        b
    }
}

/// One advertised ref: `<4 hex digits><hash> <name>`, with the part from a
/// NUL on (the capabilities) dropped; a name ends at the next space.
pub open spec fn ref_line(line: Seq<u8>) -> Option<(Seq<char>, Seq<char>)> {
    let data = prefix_until(line, 0u8);
    let sp = until(data, 32u8) as int;
    let first = trim_flush(data.subrange(0, sp));
    let name = prefix_until(after(data, sp + 1), 32u8);
    if sp < data.len() && first.len() >= 4 && valid_utf8(after(first, 4)) && valid_utf8(name) {
        Some((decode_utf8(after(first, 4)), decode_utf8(name)))
    } else {
        None
    }
}

/// Reads ref lines up to the flush line `0000` or the end.
pub open spec fn refs_spec(b: Seq<u8>) -> Option<Seq<(Seq<char>, Seq<char>)>>
    decreases b.len(),
{
    if b.len() == 0 {
        Some(seq![])
    } else if first_line(b) == seq![48u8, 48, 48, 48] {
        Some(seq![])
    } else {
        match ref_line(first_line(b)) {
            Some(r) => match refs_spec(after_line(b)) {
                Some(rs) => Some(seq![r] + rs),
                None => None,
            },
            None => None,
        }
    }
}

/// A ref advertisement: a service banner line, then the refs.
pub open spec fn advertisement_spec(body: Seq<u8>) -> Option<Seq<(Seq<char>, Seq<char>)>> {
    refs_spec(after_line(body))
}

pub open spec fn refs_view(v: Seq<Ref>) -> Seq<(Seq<char>, Seq<char>)> {
    v.map_values(|r: Ref| (r.sha@, r.name@))
}

proof fn lemma_after_line_shorter(b: Seq<u8>)
    requires
        b.len() > 0,
    ensures
        after_line(b).len() < b.len(),
{
    lemma_until(b, 10u8);
}

fn strip_flush(b: &[u8]) -> (r: &[u8])
    ensures
        r@ == trim_flush(b@),
{
    let mut cur = b;
    while cur.len() >= 4 && cur[0] == 48 && cur[1] == 48 && cur[2] == 48 && cur[3] == 48
        invariant
            trim_flush(b@) == trim_flush(cur@),
        decreases cur@.len(),
    {
        assert(cur@.subrange(0, 4) =~= seq![48u8, 48, 48, 48]);
        cur = &cur[4..cur.len()];
    }
    proof {
        if cur@.len() >= 4 && cur@.subrange(0, 4) == seq![48u8, 48, 48, 48] {
            assert(cur@[0] == cur@.subrange(0, 4)[0]);
            assert(cur@[1] == cur@.subrange(0, 4)[1]);
            assert(cur@[2] == cur@.subrange(0, 4)[2]);
            assert(cur@[3] == cur@.subrange(0, 4)[3]);
        }
    }
    cur
}

fn parse_ref_line(line: &[u8]) -> (r: GitResult<Ref>)
    ensures
        r is Ok <==> ref_line(line@) is Some,
        r matches Ok(x) ==> ref_line(line@) == Some((x.sha@, x.name@)),
{
    let data = take_until(line, 0u8);
    let sp = find_byte(data.as_slice(), 32u8);
    proof { lemma_until(data@, 32u8); }
    if sp >= data.len() {
        return Err(GitError(String::from_str("ref name not found")));
    }
    let head = &data.as_slice()[0..sp];
    assert(head@ == data@.subrange(0, sp as int));
    let first = strip_flush(head);
    if first.len() < 4 {
        return Err(GitError(String::from_str("ref id not found")));
    }
    let mut sha_bytes: Vec<u8> = Vec::new();
    sha_bytes.extend_from_slice(&first[4..first.len()]);
    assert(sha_bytes@ =~= after(first@, 4));
    let sha = match string_from_utf8(sha_bytes) {
        Some(s) => s,
        None => { return Err(GitError(String::from_str("ref id is not UTF-8"))); },
    };
    let tail = &data.as_slice()[sp + 1..data.len()];
    assert(tail@ == after(data@, sp + 1));
    let name = match crate::parser::parse_string_until(tail, 32u8) {
        Ok(s) => s,
        Err(e) => { return Err(e); },
    };
    Ok(Ref { sha, name })
}

/// Where the first line of `b` ends, and where the next one starts.
fn line_bounds(b: &[u8]) -> (r: (usize, usize))
    ensures
        r.0 <= r.1 <= b@.len(),
        b@.subrange(0, r.0 as int) == first_line(b@),
        after(b@, r.1 as int) == after_line(b@),
{
    let n = find_byte(b, 10u8);
    proof { lemma_until(b@, 10u8); }
    if n < b.len() {
        if n > 0 && b[n - 1] == 13u8 {
            assert(b@.subrange(0, n - 1) =~= prefix_until(b@, 10u8).drop_last());
            (n - 1, n + 1)
        } else {
            (n, n + 1)
        }
    } else {
        assert(after(b@, n as int) =~= Seq::<u8>::empty());
        (n, n)
    }
}

/// Reads a ref advertisement: skips the banner line, then reads
/// `<hash> <name>` lines up to the flush line, dropping capabilities.
pub fn parse_refs(body: &[u8]) -> (r: GitResult<Vec<Ref>>)
    ensures
        r is Ok <==> advertisement_spec(body@) is Some,
        r matches Ok(v) ==> advertisement_spec(body@) == Some(refs_view(v@)),
{
    let (_, start) = line_bounds(body);
    let mut i: usize = start;
    let mut refs: Vec<Ref> = Vec::new();
    let mut done = false;
    assert forall|rs: Seq<(Seq<char>, Seq<char>)>| refs_view(refs@) + rs =~= rs by {}
    while !done && i < body.len()
        invariant
            start <= i <= body@.len(),
            advertisement_spec(body@) == (if done {
                Some(refs_view(refs@))
            } else {
                match refs_spec(after(body@, i as int)) {
                    Some(rs) => Some(refs_view(refs@) + rs),
                    None => None,
                }
            }),
        decreases body@.len() - i + (if done {
            0int
        } else {
            1int
        }),
    {
        let cur = &body[i..body.len()];
        proof { lemma_after_line_shorter(cur@); }
        let (end, next) = line_bounds(cur);
        let line = &cur[0..end];
        if line.len() == 4 && line[0] == 48 && line[1] == 48 && line[2] == 48 && line[3] == 48 {
            assert(line@ =~= seq![48u8, 48, 48, 48]);
            assert(refs_view(refs@) + Seq::<(Seq<char>, Seq<char>)>::empty() =~= refs_view(refs@));
            done = true;
        } else {
            assert(line@ != seq![48u8, 48, 48, 48]) by {
                if line@ == seq![48u8, 48, 48, 48] {
                    assert(line@.len() == 4);
                    assert(line@[0] == 48 && line@[1] == 48 && line@[2] == 48 && line@[3] == 48);
                }
            }
            let x = match parse_ref_line(line) {
                Ok(x) => x,
                Err(e) => { return Err(e); },
            };
            let ghost old_refs = refs@;
            refs.push(x);
            assert(refs_view(refs@) =~= refs_view(old_refs) + seq![(x.sha@, x.name@)]);
            assert(after(cur@, next as int) =~= after(body@, i + next));
            i = i + next;
            assert forall|rs: Seq<(Seq<char>, Seq<char>)>| refs_view(old_refs) + (seq![(x.sha@, x.name@)] + rs) =~= refs_view(refs@) + rs by {}
        }
    }
    if !done {
        assert(after(body@, i as int) =~= Seq::<u8>::empty());
        assert(refs_view(refs@) + Seq::<(Seq<char>, Seq<char>)>::empty() =~= refs_view(refs@));
    }
    Ok(refs)
}

/// No byte of `b` is `d`.
pub open spec fn free_of(b: Seq<u8>, d: u8) -> bool {
    forall|i: int| 0 <= i < b.len() ==> b[i] != d
}

proof fn lemma_until_at(x: Seq<u8>, y: Seq<u8>, d: u8)
    requires
        free_of(x, d),
        y.len() > 0,
        y[0] == d,
    ensures
        until(x + y, d) == x.len(),
{
    let b = x + y;
    assert forall|k: int| 0 <= k < x.len() implies b[k] != d by {
        assert(b[k] == x[k]);
    }
    assert(b[x.len() as int] == y[0]);
    lemma_until_unique(b, d, x.len() as int);
}

proof fn lemma_until_none(x: Seq<u8>, d: u8)
    requires
        free_of(x, d),
    ensures
        until(x, d) == x.len(),
{
    lemma_until_unique(x, d, x.len() as int);
}

/// The one ref line of an advertisement: a four-byte length, the hash, a
/// space, the name, a NUL and the capabilities.
pub open spec fn ref_line_bytes(pfx: Seq<u8>, sha: Seq<u8>, name: Seq<u8>, caps: Seq<u8>) -> Seq<
    u8,
> {
    pfx + sha + seq![32u8] + name + seq![0u8] + caps
}

proof fn lemma_ref_line_parts(pfx: Seq<u8>, sha: Seq<u8>, name: Seq<u8>, caps: Seq<u8>)
    requires
        pfx.len() == 4,
        pfx != seq![48u8, 48, 48, 48],
        free_of(pfx, 10u8) && free_of(pfx, 0u8) && free_of(pfx, 32u8),
        free_of(sha, 10u8) && free_of(sha, 0u8) && free_of(sha, 32u8),
        free_of(name, 10u8) && free_of(name, 0u8) && free_of(name, 32u8),
        free_of(caps, 10u8) && free_of(caps, 13u8),
        valid_utf8(sha),
        valid_utf8(name),
    ensures
        ref_line(ref_line_bytes(pfx, sha, name, caps)) == Some((decode_utf8(sha), decode_utf8(name))),
        free_of(ref_line_bytes(pfx, sha, name, caps), 10u8),
        ref_line_bytes(pfx, sha, name, caps).last() != 13u8,
        ref_line_bytes(pfx, sha, name, caps).len() >= 6,
{
    let line = ref_line_bytes(pfx, sha, name, caps);
    let head = pfx + sha;
    let data = head + seq![32u8] + name;
    assert(line =~= data + (seq![0u8] + caps));
    assert(free_of(data, 0u8)) by {
        assert forall|i: int| 0 <= i < data.len() implies data[i] != 0u8 by {
            if i < 4 {
                assert(data[i] == pfx[i]);
            } else if i < 4 + sha.len() {
                assert(data[i] == sha[i - 4]);
            } else if i > 4 + sha.len() {
                assert(data[i] == name[i - 5 - sha.len()]);
            }
        }
    }
    assert(free_of(line, 10u8)) by {
        assert forall|i: int| 0 <= i < line.len() implies line[i] != 10u8 by {
            if i < 4 {
                assert(line[i] == pfx[i]);
            } else if i < 4 + sha.len() {
                assert(line[i] == sha[i - 4]);
            } else if 4 + sha.len() < i < 5 + sha.len() + name.len() {
                assert(line[i] == name[i - 5 - sha.len()]);
            } else if i > 5 + sha.len() + name.len() {
                assert(line[i] == caps[i - 6 - sha.len() - name.len()]);
            }
        }
    }
    assert(line.last() != 13u8) by {
        if caps.len() > 0 {
            assert(line.last() == caps[caps.len() - 1]);
        }
    }
    lemma_until_at(data, seq![0u8] + caps, 0u8);
    assert(prefix_until(line, 0u8) =~= data);
    assert(free_of(head, 32u8)) by {
        assert forall|i: int| 0 <= i < head.len() implies head[i] != 32u8 by {
            if i < 4 {
                assert(head[i] == pfx[i]);
            } else {
                assert(head[i] == sha[i - 4]);
            }
        }
    }
    assert(data =~= head + (seq![32u8] + name));
    lemma_until_at(head, seq![32u8] + name, 32u8);
    assert(data.subrange(0, head.len() as int) =~= head);
    assert(head.subrange(0, 4) =~= pfx);
    assert(trim_flush(head) == head);
    assert(after(head, 4) =~= sha);
    assert(after(data, head.len() as int + 1) =~= name);
    lemma_until_none(name, 32u8);
    assert(prefix_until(name, 32u8) =~= name);
}

proof fn lemma_line_then_flush(line: Seq<u8>)
    requires
        free_of(line, 10u8),
        line.len() >= 6,
        line.last() != 13u8,
        ref_line(line) is Some,
    ensures
        refs_spec(line + seq![10u8] + seq![48u8, 48, 48, 48]) == Some(seq![ref_line(line)->Some_0]),
{
    let flush = seq![48u8, 48, 48, 48];
    let rest = line + seq![10u8] + flush;
    assert(rest =~= line + (seq![10u8] + flush));
    lemma_until_at(line, seq![10u8] + flush, 10u8);
    assert(prefix_until(rest, 10u8) =~= line);
    assert(first_line(rest) == line);
    assert(line != flush);
    assert(after_line(rest) =~= flush);
    assert(free_of(flush, 10u8));
    lemma_until_none(flush, 10u8);
    assert(prefix_until(flush, 10u8) =~= flush);
    assert(first_line(flush) == flush);
    assert(refs_spec(flush) == Some(Seq::<(Seq<char>, Seq<char>)>::empty()));
    assert(seq![ref_line(line)->Some_0] + Seq::<(Seq<char>, Seq<char>)>::empty() =~= seq![
        ref_line(line)->Some_0,
    ]);
}

/// A banner line, one ref line and the flush line give exactly that one ref,
/// its capabilities dropped.
pub proof fn lemma_single_ref_advertisement(
    banner: Seq<u8>,
    pfx: Seq<u8>,
    sha: Seq<u8>,
    name: Seq<u8>,
    caps: Seq<u8>,
)
    requires
        free_of(banner, 10u8),
        pfx.len() == 4,
        pfx != seq![48u8, 48, 48, 48],
        free_of(pfx, 10u8) && free_of(pfx, 0u8) && free_of(pfx, 32u8),
        free_of(sha, 10u8) && free_of(sha, 0u8) && free_of(sha, 32u8),
        free_of(name, 10u8) && free_of(name, 0u8) && free_of(name, 32u8),
        free_of(caps, 10u8) && free_of(caps, 13u8),
        valid_utf8(sha),
        valid_utf8(name),
    ensures
        advertisement_spec(
            banner + seq![10u8] + ref_line_bytes(pfx, sha, name, caps) + seq![10u8] + seq![
                48u8,
                48,
                48,
                48,
            ],
        ) == Some(seq![(decode_utf8(sha), decode_utf8(name))]),
{
    let flush = seq![48u8, 48, 48, 48];
    let line = ref_line_bytes(pfx, sha, name, caps);
    let rest = line + seq![10u8] + flush;
    let body = banner + seq![10u8] + line + seq![10u8] + flush;
    assert(body =~= banner + (seq![10u8] + rest));
    lemma_until_at(banner, seq![10u8] + rest, 10u8);
    assert(after_line(body) =~= rest);
    lemma_ref_line_parts(pfx, sha, name, caps);
    lemma_line_then_flush(line);
}

} // verus!
