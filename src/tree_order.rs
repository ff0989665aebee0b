//! Ordering tree entries by name, as a tree object expects them.

use vstd::prelude::*;
use vstd::multiset::Multiset;
use vstd::seq_lib::{to_multiset_build, to_multiset_insert};
use vstd::utf8::*;

use crate::object::{entries_view, EntryModel, ObjectReference};
use crate::text::string_bytes;

verus! {

broadcast use {vstd::multiset::group_multiset_axioms, vstd::seq_lib::group_to_multiset_ensures};

/// Byte-wise lexicographic order, the order of `str`: a proper prefix comes
/// first.
pub open spec fn lex_lt(a: Seq<u8>, b: Seq<u8>) -> bool
    decreases a.len(),
{
    if a.len() == 0 {
        b.len() > 0
    } else if b.len() == 0 {
        false
    } else if a[0] != b[0] {
        a[0] < b[0]
    } else {
        lex_lt(a.drop_first(), b.drop_first())
    }
}

/// The key an entry is ordered by: the UTF-8 bytes of its name.
pub open spec fn name_key(e: EntryModel) -> Seq<u8> {
    encode_utf8(e.name)
}

/// No entry's name is below the name of an entry before it.
pub open spec fn sorted_by_name(es: Seq<EntryModel>) -> bool {
    forall|i: int, j: int|
        0 <= i < j < es.len() ==> !lex_lt(name_key(#[trigger] es[j]), name_key(#[trigger] es[i]))
}

proof fn lemma_lex_asym(a: Seq<u8>, b: Seq<u8>)
    ensures
        lex_lt(a, b) ==> !lex_lt(b, a),
    decreases a.len(),
{
    if a.len() > 0 && b.len() > 0 && a[0] == b[0] {
        lemma_lex_asym(a.drop_first(), b.drop_first());
    }
}

proof fn lemma_lex_trans(a: Seq<u8>, b: Seq<u8>, c: Seq<u8>)
    ensures
        lex_lt(a, b) && lex_lt(b, c) ==> lex_lt(a, c),
    decreases a.len(),
{
    if a.len() > 0 && b.len() > 0 && c.len() > 0 {
        lemma_lex_trans(a.drop_first(), b.drop_first(), c.drop_first());
    }
}

proof fn lemma_lex_total(a: Seq<u8>, b: Seq<u8>)
    ensures
        !lex_lt(a, b) && !lex_lt(b, a) ==> a == b,
    decreases a.len(),
{
    if a.len() > 0 && b.len() > 0 && a[0] == b[0] {
        lemma_lex_total(a.drop_first(), b.drop_first());
        if !lex_lt(a, b) && !lex_lt(b, a) {
            assert(a =~= seq![a[0]] + a.drop_first());
            assert(b =~= seq![b[0]] + b.drop_first());
        }
    } else if a.len() == 0 && b.len() == 0 {
        assert(a =~= b);
    }
}

/// Whether `a` comes before `b` in byte-wise lexicographic order.
pub fn name_less(a: &[u8], b: &[u8]) -> (r: bool)
    ensures
        r == lex_lt(a@, b@),
{
    let mut i: usize = 0;
    assert(a@.skip(0) =~= a@);
    assert(b@.skip(0) =~= b@);
    while i < a.len() && i < b.len() && a[i] == b[i]
        invariant
            i <= a@.len(),
            i <= b@.len(),
            lex_lt(a@, b@) == lex_lt(a@.skip(i as int), b@.skip(i as int)),
        decreases a@.len() - i,
    {
        let ghost sa = a@.skip(i as int);
        let ghost sb = b@.skip(i as int);
        assert(sa.drop_first() =~= a@.skip(i + 1));
        assert(sb.drop_first() =~= b@.skip(i + 1));
        i = i + 1;
    }
    if i == a.len() {
        i < b.len()
    } else if i == b.len() {
        false
    } else {
        a[i] < b[i]
    }
}

/// The entries ordered by name, with the same entries as given.
pub fn sort_entries(refs: Vec<ObjectReference>) -> (r: Vec<ObjectReference>)
    ensures
        sorted_by_name(entries_view(r@)),
        entries_view(r@).to_multiset() == entries_view(refs@).to_multiset(),
{
    let ghost all = entries_view(refs@).to_multiset();
    let mut input = refs;
    let mut out: Vec<ObjectReference> = Vec::new();
    assert(entries_view(out@) =~= Seq::<EntryModel>::empty());
    while input.len() > 0
        invariant
            sorted_by_name(entries_view(out@)),
            entries_view(out@).to_multiset().add(entries_view(input@).to_multiset()) == all,
        decreases input@.len(),
    {
        let ghost before_in = input@;
        let x = input.pop().unwrap();
        proof {
            assert(entries_view(before_in) =~= entries_view(input@).push(x@));
            to_multiset_build(entries_view(input@), x@);
        }
        let xk = string_bytes(&x.name);
        let mut p: usize = 0;
        let mut found = false;
        while !found && p < out.len()
            invariant
                p <= out@.len(),
                xk@ == name_key(x@),
                forall|i: int| 0 <= i < p ==> !lex_lt(xk@, name_key(#[trigger] entries_view(out@)[i])),
                found ==> p < out@.len() && lex_lt(xk@, name_key(entries_view(out@)[p as int])),
            decreases out@.len() - p, if found { 0int } else { 1int },
        {
            let ok = string_bytes(&out[p].name);
            assert(entries_view(out@)[p as int] == out@[p as int]@);
            if name_less(xk.as_slice(), ok.as_slice()) {
                found = true;
            } else {
                p = p + 1;
            }
        }
        let ghost ov = entries_view(out@);
        out.insert(p, x);
        proof {
            let nv = entries_view(out@);
            assert(nv =~= ov.insert(p as int, x@));
            to_multiset_insert(ov, p as int, x@);
            assert forall|i: int, j: int| 0 <= i < j < nv.len() implies !lex_lt(
                name_key(#[trigger] nv[j]),
                name_key(#[trigger] nv[i]),
            ) by {
                if j == p {
                    assert(nv[i] == ov[i]);
                } else if i == p {
                    let oj = ov[j - 1];
                    assert(nv[j] == oj);
                    lemma_lex_asym(name_key(x@), name_key(ov[p as int]));
                    if j - 1 > p {
                        lemma_lex_total(name_key(ov[p as int]), name_key(oj));
                        lemma_lex_trans(name_key(x@), name_key(ov[p as int]), name_key(oj));
                    }
                    lemma_lex_asym(name_key(x@), name_key(oj));
                } else {
                    let oi = if i < p { i } else { i - 1 };
                    let oj = if j < p { j } else { j - 1 };
                    assert(nv[i] == ov[oi]);
                    assert(nv[j] == ov[oj]);
                }
            }
        }
    }
    proof {
        assert(entries_view(input@) =~= Seq::<EntryModel>::empty());
        assert(entries_view(out@).to_multiset().add(Multiset::empty()) =~= entries_view(out@).to_multiset());
    }
    out
}

} // verus!
