//! Decoding what encoding produced gives the object back.

use vstd::prelude::*;
use vstd::utf8::*;

use crate::object::{
    commit_payload, commit_spec, commit_tail_spec, decode_spec, encoded, entry_bytes, kind_of,
    kind_of_token, parent_line, parent_lines, parents_spec, payload, payload_spec, signature_spec,
    starts_with, tree_payload, tree_spec, type_token, ContributorModel, EntryModel, ObjectModel,
};
use crate::parser::{
    after, all_digits, contributor_bytes, contributor_spec, dec_digits,
    lemma_dec_digits, lemma_until_unique, name_part, prefix_until, until,
};

verus! {

/// No character of `s` is `c`.
pub open spec fn lacks(s: Seq<char>, c: char) -> bool {
    forall|i: int| 0 <= i < s.len() ==> s[i] != c
}

/// A tree entry that its encoding can carry: a name without NUL and a
/// 20-byte hash.
pub open spec fn entry_ok(e: EntryModel) -> bool {
    lacks(e.name, '\0') && e.hash.len() == 20 && e.mode <= usize::MAX
}

/// A contributor that its line can carry: no `<` in the name, no `>` in the
/// e-mail, no newline in the zone.
pub open spec fn contributor_ok(c: ContributorModel) -> bool {
    lacks(c.name, '<') && lacks(c.email, '>') && lacks(c.timezone, '\n')
}

/// The objects that the canonical encoding represents faithfully.
pub open spec fn well_formed(o: ObjectModel) -> bool {
    match o {
        ObjectModel::Blob(_) => true,
        ObjectModel::Tree(es) => forall|i: int| 0 <= i < es.len() ==> entry_ok(#[trigger] es[i]),
        ObjectModel::Commit { tree, parents, author, committer, message } => {
            &&& lacks(tree, '\n')
            &&& forall|i: int| 0 <= i < parents.len() ==> lacks(#[trigger] parents[i], '\n')
            &&& contributor_ok(author)
            &&& contributor_ok(committer)
        },
    }
}

proof fn lemma_scalar_avoids(c: char, a: u8)
    requires
        a < 128,
        c != a as char,
    ensures
        forall|k: int|
            0 <= k < encode_scalar(c as u32).len() ==> #[trigger] encode_scalar(c as u32)[k] != a,
{
    let v = c as u32;
    char_is_scalar(c);
    if has_width_1_encoding(v) {
        assert(leading_byte_width_1(v) as u32 == v) by (bit_vector)
            requires
                v <= 0x7f,
        ;
        assert(v != a as u32) by {
            if v == a as u32 {
                char_u32_cast(c, v);
                assert(c == (a as u32) as char);
            }
        }
    } else {
        assert(leading_byte_width_2(v) >= 0x80) by (bit_vector);
        assert(leading_byte_width_3(v) >= 0x80) by (bit_vector);
        assert(leading_byte_width_4(v) >= 0x80) by (bit_vector);
        assert(last_continuation_byte(v) >= 0x80) by (bit_vector);
        assert(second_last_continuation_byte(v) >= 0x80) by (bit_vector);
        assert(third_last_continuation_byte(v) >= 0x80) by (bit_vector);
    }
}

/// The UTF-8 bytes of text without the ASCII character `a` do not hold the
/// byte `a`.
pub proof fn lemma_utf8_lacks(cs: Seq<char>, a: u8)
    requires
        a < 128,
        lacks(cs, a as char),
    ensures
        forall|k: int| 0 <= k < encode_utf8(cs).len() ==> encode_utf8(cs)[k] != a,
    decreases cs.len(),
{
    if cs.len() > 0 {
        let head = encode_scalar(cs[0] as u32);
        let rest = encode_utf8(cs.drop_first());
        lemma_scalar_avoids(cs[0], a);
        assert(lacks(cs.drop_first(), a as char)) by {
            assert forall|i: int| 0 <= i < cs.drop_first().len() implies cs.drop_first()[i]
                != a as char by {
                assert(cs.drop_first()[i] == cs[i + 1]);
            }
        }
        lemma_utf8_lacks(cs.drop_first(), a);
        assert(encode_utf8(cs) == head + rest);
        assert forall|k: int| 0 <= k < encode_utf8(cs).len() implies encode_utf8(cs)[k] != a by {
            if k < head.len() {
                assert(encode_utf8(cs)[k] == head[k]);
            } else {
                assert(encode_utf8(cs)[k] == rest[k - head.len()]);
            }
        }
    }
}

/// A delimiter-free prefix followed by the delimiter ends where the prefix
/// does.
proof fn lemma_until_concat(x: Seq<u8>, y: Seq<u8>, d: u8)
    requires
        forall|k: int| 0 <= k < x.len() ==> x[k] != d,
        y.len() > 0,
        y[0] == d,
    ensures
        until(x + y, d) == x.len(),
{
    let b = x + y;
    assert forall|k: int| 0 <= k < x.len() implies b[k] != d by {
        assert(b[k] == x[k]);
    }
    assert(b[x.len() as int] == y[0]);
    lemma_until_unique(b, d, x.len() as int);
}

proof fn lemma_digits_lack(n: nat, d: u8)
    requires
        d < 48 || d > 57,
    ensures
        forall|k: int| 0 <= k < dec_digits(n).len() ==> dec_digits(n)[k] != d,
{
    lemma_dec_digits(n);
    assert forall|k: int| 0 <= k < dec_digits(n).len() implies dec_digits(n)[k] != d by {
        assert(all_digits(dec_digits(n)));
    }
}

proof fn lemma_tree_payload_cons(es: Seq<EntryModel>)
    requires
        es.len() > 0,
    ensures
        tree_payload(es) == entry_bytes(es[0]) + tree_payload(es.drop_first()),
    decreases es.len(),
{
    if es.len() == 1 {
        assert(es.drop_first() =~= Seq::<EntryModel>::empty());
        assert(es.drop_last() =~= Seq::<EntryModel>::empty());
        assert(tree_payload(es) =~= entry_bytes(es[0]) + tree_payload(es.drop_first()));
    } else {
        lemma_tree_payload_cons(es.drop_last());
        assert(es.drop_last().drop_first() =~= es.drop_first().drop_last());
        assert(es.drop_first().last() == es.last());
        assert(es.drop_last()[0] == es[0]);
        assert(tree_payload(es) =~= entry_bytes(es[0]) + tree_payload(es.drop_first()));
    }
}

#[verifier::rlimit(50)]
proof fn lemma_tree_round_trip(es: Seq<EntryModel>)
    requires
        forall|i: int| 0 <= i < es.len() ==> entry_ok(#[trigger] es[i]),
    ensures
        tree_spec(tree_payload(es)) == Some(es),
    decreases es.len(),
{
    if es.len() == 0 {
        assert(tree_payload(es) == Seq::<u8>::empty());
    } else {
        let e = es[0];
        assert(entry_ok(e));
        let rest = tree_payload(es.drop_first());
        lemma_tree_payload_cons(es);
        let b = tree_payload(es);
        let dd = dec_digits(e.mode);
        let nm = encode_utf8(e.name);
        lemma_dec_digits(e.mode);
        lemma_digits_lack(e.mode, 32u8);
        assert(b =~= dd + (seq![32u8] + nm + seq![0u8] + e.hash + rest));
        lemma_until_concat(dd, seq![32u8] + nm + seq![0u8] + e.hash + rest, 32u8);
        let m = dd.len() as int;
        assert(b.subrange(0, m) =~= dd);
        let r1 = after(b, m + 1);
        assert(r1 =~= nm + (seq![0u8] + e.hash + rest));
        lemma_utf8_lacks(e.name, 0u8);
        encode_utf8_valid_utf8(e.name);
        encode_utf8_decode_utf8(e.name);
        lemma_until_concat(nm, seq![0u8] + e.hash + rest, 0u8);
        let n = nm.len() as int;
        assert(r1.subrange(0, n) =~= nm);
        let r2 = after(r1, n + 1);
        assert(r2 =~= e.hash + rest);
        assert(r2.subrange(0, 20) =~= e.hash);
        assert(after(r2, 20) =~= rest);
        assert forall|i: int| 0 <= i < es.drop_first().len() implies entry_ok(
            #[trigger] es.drop_first()[i],
        ) by {
            assert(es.drop_first()[i] == es[i + 1]);
        }
        lemma_tree_round_trip(es.drop_first());
        assert(seq![e] + es.drop_first() =~= es);
    }
}

proof fn lemma_parent_lines_cons(ps: Seq<Seq<char>>)
    requires
        ps.len() > 0,
    ensures
        parent_lines(ps) == parent_line(ps[0]) + parent_lines(ps.drop_first()),
    decreases ps.len(),
{
    if ps.len() == 1 {
        assert(ps.drop_first() =~= Seq::<Seq<char>>::empty());
        assert(ps.drop_last() =~= Seq::<Seq<char>>::empty());
        assert(parent_lines(ps) =~= parent_line(ps[0]) + parent_lines(ps.drop_first()));
    } else {
        lemma_parent_lines_cons(ps.drop_last());
        assert(ps.drop_last().drop_first() =~= ps.drop_first().drop_last());
        assert(ps.drop_first().last() == ps.last());
        assert(ps.drop_last()[0] == ps[0]);
        assert(parent_lines(ps) =~= parent_line(ps[0]) + parent_lines(ps.drop_first()));
    }
}

pub open spec fn author_kw() -> Seq<u8> {
    seq![97u8, 117, 116, 104, 111, 114, 32]
}

pub open spec fn committer_kw() -> Seq<u8> {
    seq![99u8, 111, 109, 109, 105, 116, 116, 101, 114, 32]
}

#[verifier::rlimit(50)]
proof fn lemma_parents_round_trip(ps: Seq<Seq<char>>, tail: Seq<u8>)
    requires
        forall|i: int| 0 <= i < ps.len() ==> lacks(#[trigger] ps[i], '\n'),
        starts_with(tail, author_kw()),
    ensures
        parents_spec(parent_lines(ps) + tail) == Some((ps, parent_lines(ps).len() as int)),
    decreases ps.len(),
{
    let b = parent_lines(ps) + tail;
    let pkw = seq![112u8, 97, 114, 101, 110, 116, 32];
    if ps.len() == 0 {
        assert(parent_lines(ps) == Seq::<u8>::empty());
        assert(b =~= tail);
        assert(!starts_with(b, pkw)) by {
            assert(tail.subrange(0, 7)[0] == author_kw()[0]);
            if starts_with(b, pkw) {
                assert(b.subrange(0, 7)[0] == pkw[0]);
            }
        }
    } else {
        lemma_parent_lines_cons(ps);
        let p = ps[0];
        let u = encode_utf8(p);
        let rest = parent_lines(ps.drop_first()) + tail;
        assert(b =~= pkw + (u + (seq![10u8] + rest)));
        assert(b.subrange(0, 7) =~= pkw);
        let r = after(b, 7);
        assert(r =~= u + (seq![10u8] + rest));
        lemma_utf8_lacks(p, 10u8);
        encode_utf8_valid_utf8(p);
        encode_utf8_decode_utf8(p);
        lemma_until_concat(u, seq![10u8] + rest, 10u8);
        let n = u.len() as int;
        assert(r.subrange(0, n) =~= u);
        assert(after(r, n + 1) =~= rest);
        assert forall|i: int| 0 <= i < ps.drop_first().len() implies lacks(
            #[trigger] ps.drop_first()[i],
            '\n',
        ) by {
            assert(ps.drop_first()[i] == ps[i + 1]);
        }
        lemma_parents_round_trip(ps.drop_first(), tail);
        assert(seq![decode_utf8(u)] + ps.drop_first() =~= ps);
    }
}

#[verifier::rlimit(50)]
proof fn lemma_contributor_round_trip(c: ContributorModel, rest: Seq<u8>)
    requires
        contributor_ok(c),
    ensures
        contributor_spec(contributor_bytes(c) + rest) == Some(
            (contributor_bytes(c).len(), c),
        ),
{
    let b = contributor_bytes(c) + rest;
    let nm = encode_utf8(c.name);
    let em = encode_utf8(c.email);
    let dd = dec_digits(c.timestamp as nat);
    let tz = encode_utf8(c.timezone);
    let after_name = seq![60u8] + em + seq![62u8, 32u8] + dd + seq![32u8] + tz + seq![10u8] + rest;
    assert(b =~= (nm + seq![32u8]) + after_name);
    lemma_utf8_lacks(c.name, 60u8);
    encode_utf8_valid_utf8(c.name);
    encode_utf8_decode_utf8(c.name);
    encode_utf8_valid_utf8(c.email);
    encode_utf8_decode_utf8(c.email);
    encode_utf8_valid_utf8(c.timezone);
    encode_utf8_decode_utf8(c.timezone);
    assert forall|k: int| 0 <= k < (nm + seq![32u8]).len() implies (nm + seq![32u8])[k] != 60u8 by {
        if k < nm.len() {
            assert((nm + seq![32u8])[k] == nm[k]);
        }
    }
    lemma_until_concat(nm + seq![32u8], after_name, 60u8);
    let n = nm.len() as int + 1;
    assert(b.subrange(0, n) =~= nm + seq![32u8]);
    assert(name_part(b.subrange(0, n)) =~= nm);
    let r1 = after(b, n + 1);
    let after_email = seq![62u8, 32u8] + dd + seq![32u8] + tz + seq![10u8] + rest;
    assert(r1 =~= em + after_email);
    lemma_utf8_lacks(c.email, 62u8);
    lemma_until_concat(em, after_email, 62u8);
    let e = em.len() as int;
    assert(r1.subrange(0, e) =~= em);
    assert(r1[e + 1] == 32u8);
    let r2 = after(r1, e + 2);
    let after_ts = seq![32u8] + tz + seq![10u8] + rest;
    assert(r2 =~= dd + after_ts);
    lemma_digits_lack(c.timestamp as nat, 32u8);
    lemma_dec_digits(c.timestamp as nat);
    lemma_until_concat(dd, after_ts, 32u8);
    let t = dd.len() as int;
    assert(r2.subrange(0, t) =~= dd);
    let r3 = after(r2, t + 1);
    assert(r3 =~= tz + (seq![10u8] + rest));
    lemma_utf8_lacks(c.timezone, 10u8);
    lemma_until_concat(tz, seq![10u8] + rest, 10u8);
    let z = tz.len() as int;
    assert(r3.subrange(0, z) =~= tz);
    assert(contributor_bytes(c).len() == n + 1 + e + 2 + t + 1 + z + 1);
}

proof fn lemma_signature_round_trip(kw: Seq<u8>, c: ContributorModel, rest: Seq<u8>)
    requires
        contributor_ok(c),
    ensures
        signature_spec(kw + contributor_bytes(c) + rest, kw) == Some(
            (kw.len() + contributor_bytes(c).len() as int, c),
        ),
{
    let b = kw + contributor_bytes(c) + rest;
    assert(b.subrange(0, kw.len() as int) =~= kw);
    assert(after(b, kw.len() as int) =~= contributor_bytes(c) + rest);
    lemma_contributor_round_trip(c, rest);
}

/// The bytes after a commit's parent lines.
pub open spec fn commit_tail(author: ContributorModel, committer: ContributorModel, message: Seq<char>) -> Seq<u8> {
    author_kw() + contributor_bytes(author) + (committer_kw() + contributor_bytes(committer) + (
    seq![10u8] + encode_utf8(message)))
}

#[verifier::rlimit(50)]
proof fn lemma_commit_tail_round_trip(
    author: ContributorModel,
    committer: ContributorModel,
    message: Seq<char>,
)
    requires
        contributor_ok(author),
        contributor_ok(committer),
    ensures
        commit_tail_spec(commit_tail(author, committer, message)) == Some((author, committer, message)),
{
    let nl = seq![10u8];
    let msg = encode_utf8(message);
    encode_utf8_valid_utf8(message);
    encode_utf8_decode_utf8(message);
    let r4 = committer_kw() + contributor_bytes(committer) + (nl + msg);
    let tail = commit_tail(author, committer, message);
    lemma_signature_round_trip(author_kw(), author, r4);
    let a = author_kw().len() + contributor_bytes(author).len();
    assert(after(tail, a as int) =~= r4);
    lemma_signature_round_trip(committer_kw(), committer, nl + msg);
    let c = committer_kw().len() + contributor_bytes(committer).len();
    assert(after(r4, c as int) =~= nl + msg);
    let r6 = nl + msg;
    assert(r6.subrange(0, 1) =~= nl);
    assert(after(r6, 1) =~= msg);
}

proof fn lemma_commit_payload_shape(
    tree: Seq<char>,
    parents: Seq<Seq<char>>,
    author: ContributorModel,
    committer: ContributorModel,
    message: Seq<char>,
)
    ensures
        commit_payload(tree, parents, author, committer, message) == seq![116u8, 114, 101, 101, 32]
            + (encode_utf8(tree) + (seq![10u8] + (parent_lines(parents) + commit_tail(
            author,
            committer,
            message,
        )))),
{
    assert(commit_payload(tree, parents, author, committer, message) =~= seq![
        116u8,
        114,
        101,
        101,
        32,
    ] + (encode_utf8(tree) + (seq![10u8] + (parent_lines(parents) + commit_tail(
        author,
        committer,
        message,
    )))));
}

proof fn lemma_commit_head(tree: Seq<char>, rest: Seq<u8>)
    requires
        lacks(tree, '\n'),
    ensures
        ({
            let b = seq![116u8, 114, 101, 101, 32] + (encode_utf8(tree) + (seq![10u8] + rest));
            let r0 = after(b, 5);
            let t = until(r0, 10u8) as int;
            &&& starts_with(b, seq![116u8, 114, 101, 101, 32])
            &&& t < r0.len()
            &&& r0.subrange(0, t) == encode_utf8(tree)
            &&& after(r0, t + 1) == rest
        }),
{
    let tkw = seq![116u8, 114, 101, 101, 32];
    let tu = encode_utf8(tree);
    let nl = seq![10u8];
    let b = tkw + (tu + (nl + rest));
    assert(b.subrange(0, 5) =~= tkw);
    let r0 = after(b, 5);
    assert(r0 =~= tu + (nl + rest));
    lemma_utf8_lacks(tree, 10u8);
    lemma_until_concat(tu, nl + rest, 10u8);
    let t = tu.len() as int;
    assert(r0.subrange(0, t) =~= tu);
    assert(after(r0, t + 1) =~= rest);
}

proof fn lemma_commit_round_trip(
    tree: Seq<char>,
    parents: Seq<Seq<char>>,
    author: ContributorModel,
    committer: ContributorModel,
    message: Seq<char>,
)
    requires
        lacks(tree, '\n'),
        forall|i: int| 0 <= i < parents.len() ==> lacks(#[trigger] parents[i], '\n'),
        contributor_ok(author),
        contributor_ok(committer),
    ensures
        commit_spec(commit_payload(tree, parents, author, committer, message)) == Some(
            ObjectModel::Commit { tree, parents, author, committer, message },
        ),
{
    let pl = parent_lines(parents);
    let tail = commit_tail(author, committer, message);
    lemma_commit_payload_shape(tree, parents, author, committer, message);
    lemma_commit_head(tree, pl + tail);
    encode_utf8_valid_utf8(tree);
    encode_utf8_decode_utf8(tree);
    assert(starts_with(tail, author_kw())) by {
        assert(tail =~= author_kw() + (contributor_bytes(author) + (committer_kw()
            + contributor_bytes(committer) + (seq![10u8] + encode_utf8(message)))));
        assert(tail.subrange(0, 7) =~= author_kw());
    }
    lemma_parents_round_trip(parents, tail);
    assert(after(pl + tail, pl.len() as int) =~= tail);
    lemma_commit_tail_round_trip(author, committer, message);
}

/// Reading back the payload of a well-formed object, as its own kind, gives
/// the object again, field for field.
pub proof fn lemma_payload_round_trip(o: ObjectModel)
    requires
        well_formed(o),
    ensures
        payload_spec(kind_of(o), payload(o)) == Some(o),
{
    match o {
        ObjectModel::Blob(_) => {},
        ObjectModel::Tree(es) => {
            lemma_tree_round_trip(es);
        },
        ObjectModel::Commit { tree, parents, author, committer, message } => {
            lemma_commit_round_trip(tree, parents, author, committer, message);
        },
    }
}

/// Decoding the canonical encoding of a well-formed object gives the object
/// again.
pub proof fn lemma_decode_encode(o: ObjectModel)
    requires
        well_formed(o),
    ensures
        decode_spec(encoded(o)) == Some(o),
{
    let tok = type_token(o);
    let dd = dec_digits(payload(o).len());
    let b = encoded(o);
    let after_tok = seq![32u8] + dd + seq![0u8] + payload(o);
    assert(b =~= tok + after_tok);
    assert forall|k: int| 0 <= k < tok.len() implies tok[k] != 32u8 && tok[k] != 0u8 by {}
    lemma_until_concat(tok, after_tok, 32u8);
    assert(prefix_until(b, 32u8) =~= tok);
    let head = tok + seq![32u8] + dd;
    lemma_digits_lack(payload(o).len(), 0u8);
    assert forall|k: int| 0 <= k < head.len() implies head[k] != 0u8 by {
        if k < tok.len() {
            assert(head[k] == tok[k]);
        } else if k > tok.len() {
            assert(head[k] == dd[k - tok.len() - 1]);
        }
    }
    assert(b =~= head + (seq![0u8] + payload(o)));
    lemma_until_concat(head, seq![0u8] + payload(o), 0u8);
    assert(after(b, head.len() as int + 1) =~= payload(o));
    assert(kind_of_token(tok) == Some(kind_of(o)));
    lemma_payload_round_trip(o);
}

} // verus!
