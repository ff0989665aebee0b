//! Laying out a checked-out tree: which blob goes to which path.

use vstd::prelude::*;

use crate::git_error::{GitError, GitResult};
use crate::object::{
    copy_bytes, entries_view, hex_chars, strings_view, to_hex, EntryModel, Object, ObjectModel,
    ObjectReference,
};

verus! {

/// The decoded objects by the hex form of their hashes.
pub open spec fn named_view(objs: Seq<(String, Object)>) -> Seq<(Seq<char>, ObjectModel)> {
    objs.map_values(|p: (String, Object)| (p.0@, p.1@))
}

/// The first object stored under `name`.
pub open spec fn lookup_named(objs: Seq<(Seq<char>, ObjectModel)>, name: Seq<char>) -> Option<
    int,
>
    decreases objs.len(),
{
    if objs.len() == 0 {
        None
    } else if objs[0].0 == name {
        Some(0)
    } else {
        match lookup_named(objs.drop_first(), name) {
            Some(j) => Some(j + 1),
            None => None,
        }
    }
}

/// The files under an object placed at `prefix`: a blob is one file; a tree
/// gives the files of its entries in order, each under its name, looked up by
/// hash; a commit inside a tree is refused. At most `depth` trees are entered
/// on any path.
pub open spec fn files_spec(
    objs: Seq<(Seq<char>, ObjectModel)>,
    o: ObjectModel,
    prefix: Seq<Seq<char>>,
    depth: nat,
) -> Option<Seq<(Seq<Seq<char>>, Seq<u8>)>>
    decreases depth, 0nat, 0nat,
{
    match o {
        ObjectModel::Blob(b) => Some(seq![(prefix, b)]),
        ObjectModel::Tree(es) => if depth == 0 {
            None
        } else {
            entries_files(objs, es, prefix, (depth - 1) as nat)
        },
        ObjectModel::Commit { .. } => None,
    }
}

/// The files under a tree's entries, in order.
pub open spec fn entries_files(
    objs: Seq<(Seq<char>, ObjectModel)>,
    es: Seq<EntryModel>,
    prefix: Seq<Seq<char>>,
    depth: nat,
) -> Option<Seq<(Seq<Seq<char>>, Seq<u8>)>>
    decreases depth, 1nat, es.len(),
{
    if es.len() == 0 {
        Some(seq![])
    } else {
        match lookup_named(objs, hex_chars(es[0].hash)) {
            Some(j) => if 0 <= j < objs.len() {
                match files_spec(objs, objs[j].1, prefix.push(es[0].name), depth) {
                    Some(first) => match entries_files(objs, es.drop_first(), prefix, depth) {
                        Some(rest) => Some(first + rest),
                        None => None,
                    },
                    None => None,
                }
            } else {
                None
            },
            None => None,
        }
    }
}

pub open spec fn files_view(v: Seq<(Vec<String>, Vec<u8>)>) -> Seq<(Seq<Seq<char>>, Seq<u8>)> {
    v.map_values(|p: (Vec<String>, Vec<u8>)| (strings_view(p.0@), p.1@))
}

fn find_named(objects: &Vec<(String, Object)>, name: &String) -> (r: Option<usize>)
    ensures
        r matches Some(j) ==> lookup_named(named_view(objects@), name@) == Some(j as int) && j
            < objects@.len(),
        r is None ==> lookup_named(named_view(objects@), name@) is None,
{
    let mut k: usize = 0;
    assert(named_view(objects@).skip(0) =~= named_view(objects@));
    while k < objects.len()
        invariant
            k <= objects@.len(),
            lookup_named(named_view(objects@), name@) == (match lookup_named(
                named_view(objects@).skip(k as int),
                name@,
            ) {
                Some(j) => Some(j + k),
                None => None::<int>,
            }),
        decreases objects@.len() - k,
    {
        let ghost s = named_view(objects@).skip(k as int);
        assert(s.drop_first() =~= named_view(objects@).skip(k + 1));
        assert(s[0] == (objects@[k as int].0@, objects@[k as int].1@));
        if objects[k].0.eq(name) {
            return Some(k);
        }
        k = k + 1;
    }
    assert(named_view(objects@).skip(k as int) =~= Seq::<(Seq<char>, ObjectModel)>::empty());
    None
}

fn clone_path(p: &Vec<String>) -> (r: Vec<String>)
    ensures
        strings_view(r@) == strings_view(p@),
{
    let mut out: Vec<String> = Vec::new();
    let mut k: usize = 0;
    while k < p.len()
        invariant
            k <= p@.len(),
            out@.len() == k,
            forall|i: int| 0 <= i < k ==> (#[trigger] out@[i])@ == p@[i]@,
        decreases p@.len() - k,
    {
        let s = p[k].as_str().to_owned();
        out.push(s);
        k = k + 1;
    }
    assert(strings_view(out@) =~= strings_view(p@));
    out
}

/// The files under `obj` placed at `prefix`, each blob with the path it goes
/// to; trees are followed through `objects` by hash, at most `depth` deep.
pub fn build_tree(
    objects: &Vec<(String, Object)>,
    obj: &Object,
    prefix: Vec<String>,
    depth: usize,
) -> (r: GitResult<Vec<(Vec<String>, Vec<u8>)>>)
    ensures
        r is Ok <==> files_spec(named_view(objects@), obj@, strings_view(prefix@), depth as nat)
            is Some,
        r matches Ok(v) ==> files_spec(named_view(objects@), obj@, strings_view(prefix@), depth as nat)
            == Some(files_view(v@)),
    decreases depth, 0nat, 0nat,
{
    match obj {
        Object::Blob(content) => {
            let mut res: Vec<(Vec<String>, Vec<u8>)> = Vec::new();
            res.push((prefix, copy_bytes(content.as_slice())));
            assert(files_view(res@) =~= seq![(strings_view(prefix@), content@)]);
            Ok(res)
        },
        Object::Tree(refs) => {
            if depth == 0 {
                return Err(GitError(String::from_str("Tree nesting too deep")));
            }
            build_entries(objects, refs, &prefix, depth - 1)
        },
        Object::Commit { .. } => Err(GitError(String::from_str("Tree is pointing to a commit"))),
    }
}

fn build_entries(
    objects: &Vec<(String, Object)>,
    refs: &Vec<ObjectReference>,
    prefix: &Vec<String>,
    depth: usize,
) -> (r: GitResult<Vec<(Vec<String>, Vec<u8>)>>)
    ensures
        r is Ok <==> entries_files(
            named_view(objects@),
            entries_view(refs@),
            strings_view(prefix@),
            depth as nat,
        ) is Some,
        r matches Ok(v) ==> entries_files(
            named_view(objects@),
            entries_view(refs@),
            strings_view(prefix@),
            depth as nat,
        ) == Some(files_view(v@)),
    decreases depth, 1nat, 0nat,
{
    let ghost objs = named_view(objects@);
    let ghost pv = strings_view(prefix@);
    let ghost es = entries_view(refs@);
    let mut res: Vec<(Vec<String>, Vec<u8>)> = Vec::new();
    let mut k: usize = 0;
    assert(es.skip(0) =~= es);
    assert forall|t: Seq<(Seq<Seq<char>>, Seq<u8>)>| files_view(res@) + t =~= t by {}
    while k < refs.len()
        invariant
            k <= refs@.len(),
            objs == named_view(objects@),
            pv == strings_view(prefix@),
            es == entries_view(refs@),
            entries_files(objs, es, pv, depth as nat) == (match entries_files(
                objs,
                es.skip(k as int),
                pv,
                depth as nat,
            ) {
                Some(t) => Some(files_view(res@) + t),
                None => None::<Seq<(Seq<Seq<char>>, Seq<u8>)>>,
            }),
        decreases refs@.len() - k,
    {
        let ghost cur = es.skip(k as int);
        assert(cur[0] == refs@[k as int]@);
        assert(cur.drop_first() =~= es.skip(k + 1));
        let r = &refs[k];
        let hex = to_hex(&r.hash);
        let j = match find_named(objects, &hex) {
            Some(j) => j,
            None => {
                return Err(GitError(String::from_str("Object not found")));
            },
        };
        let mut path = clone_path(prefix);
        let name = r.name.as_str().to_owned();
        path.push(name);
        assert(strings_view(path@) =~= pv.push(r.name@));
        let sub = match build_tree(objects, &objects[j].1, path, depth) {
            Ok(v) => v,
            Err(e) => {
                return Err(e);
            },
        };
        let ghost before = files_view(res@);
        let mut sub_mut = sub;
        res.append(&mut sub_mut);
        assert(files_view(res@) =~= before + files_view(sub@));
        k = k + 1;
        assert forall|t: Seq<(Seq<Seq<char>>, Seq<u8>)>| before + (files_view(sub@) + t) =~= files_view(res@) + t by {}
    }
    assert(es.skip(k as int) =~= Seq::<EntryModel>::empty());
    assert(files_view(res@) + Seq::<(Seq<Seq<char>>, Seq<u8>)>::empty() =~= files_view(res@));
    Ok(res)
}

} // verus!
