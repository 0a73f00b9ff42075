use vstd::prelude::*;

pub use crate::document::ReadJsonError;
use crate::document::{decode, decode_spec, encode, locate_spec, ser_doc, update_doc, copy_bytes};
use crate::json_scan::SLASH;

verus! {

/// A snapshot of a directory tree: every file with its full byte content,
/// every folder with its named children. One upsert request walks one such
/// snapshot.
pub enum FsTree {
    File(Vec<u8>),
    Dir(Vec<(Vec<u8>, FsTree)>),
}

/// The mathematical value of a tree snapshot.
pub ghost enum FsModel {
    File(Seq<u8>),
    Dir(Seq<(Seq<u8>, FsModel)>),
}

pub open spec fn entries_view(es: Seq<(Vec<u8>, FsTree)>) -> Seq<(Seq<u8>, FsModel)>
    decreases es,
{
    if es.len() == 0 {
        Seq::empty()
    } else {
        seq![(es[0].0@, es[0].1@)] + entries_view(es.drop_first())
    }
}

impl View for FsTree {
    type V = FsModel;

    open spec fn view(&self) -> FsModel
        decreases self,
    {
        match self {
            FsTree::File(b) => FsModel::File(b@),
            FsTree::Dir(es) => FsModel::Dir(entries_view(es@)),
        }
    }
}

pub proof fn lemma_entries_view_index(es: Seq<(Vec<u8>, FsTree)>)
    ensures
        entries_view(es).len() == es.len(),
        forall|k: int| 0 <= k < es.len() ==> #[trigger] entries_view(es)[k] == (
            es[k].0@,
            es[k].1@,
        ),
    decreases es,
{
    if es.len() > 0 {
        lemma_entries_view_index(es.drop_first());
        assert(entries_view(es) == seq![(es[0].0@, es[0].1@)] + entries_view(es.drop_first()));
        assert forall|k: int| 0 <= k < es.len() implies #[trigger] entries_view(es)[k] == (
            es[k].0@,
            es[k].1@,
        ) by {
            if k > 0 {
                assert(entries_view(es)[k] == entries_view(es.drop_first())[k - 1]);
                assert(es.drop_first()[k - 1] == es[k]);
            }
        }
    }
}

pub proof fn lemma_entries_view_push(es: Seq<(Vec<u8>, FsTree)>, x: (Vec<u8>, FsTree))
    ensures
        entries_view(es.push(x)) == entries_view(es) + seq![(x.0@, x.1@)],
    decreases es,
{
    let ep = es.push(x);
    assert(ep.len() == es.len() + 1);
    assert(entries_view(ep) == seq![(ep[0].0@, ep[0].1@)] + entries_view(ep.drop_first()));
    if es.len() == 0 {
        assert(ep[0] == x);
        assert(ep.drop_first() =~= Seq::<(Vec<u8>, FsTree)>::empty());
        assert(entries_view(ep.drop_first()) == Seq::<(Seq<u8>, FsModel)>::empty());
        assert(entries_view(es) == Seq::<(Seq<u8>, FsModel)>::empty());
        assert(entries_view(ep) =~= entries_view(es) + seq![(x.0@, x.1@)]);
    } else {
        assert(ep[0] == es[0]);
        assert(ep.drop_first() =~= es.drop_first().push(x));
        lemma_entries_view_push(es.drop_first(), x);
        assert(entries_view(ep.drop_first()) == entries_view(es.drop_first()) + seq![
            (x.0@, x.1@),
        ]);
        assert(entries_view(es) == seq![(es[0].0@, es[0].1@)] + entries_view(es.drop_first()));
        assert(entries_view(ep) =~= entries_view(es) + seq![(x.0@, x.1@)]);
    }
}

/// True when the bytes decode to a document that holds the block: the file
/// will be rewritten by the walk.
pub open spec fn file_modified(b: Seq<u8>, id: Seq<u8>) -> bool {
    &&& decode_spec(b) is Some
    &&& locate_spec(decode_spec(b)->Some_0, id) is Some
}

/// What one file's bytes become under an upsert of `(id, props)`: the
/// re-encoded document with the block's property table replaced when the
/// block is present, the exact original bytes otherwise.
pub open spec fn process_spec(b: Seq<u8>, id: Seq<u8>, props: Seq<u8>) -> Seq<u8> {
    match decode_spec(b) {
        None => b,
        Some(dm) => match locate_spec(dm, id) {
            None => b,
            Some(ix) => ser_doc(update_doc(dm, ix, props)),
        },
    }
}

/// The whole tree after one upsert: every file processed independently,
/// every folder kept with its children walked; the walk never stops at a
/// first match and never lets one file's failure touch another file.
pub open spec fn walk_spec(t: FsModel, id: Seq<u8>, props: Seq<u8>) -> FsModel
    decreases t,
{
    match t {
        FsModel::File(b) => FsModel::File(process_spec(b, id, props)),
        FsModel::Dir(es) => FsModel::Dir(walk_entries_spec(es, id, props)),
    }
}

pub open spec fn walk_entries_spec(
    es: Seq<(Seq<u8>, FsModel)>,
    id: Seq<u8>,
    props: Seq<u8>,
) -> Seq<(Seq<u8>, FsModel)>
    decreases es,
{
    if es.len() == 0 {
        Seq::empty()
    } else {
        seq![(es[0].0, walk_spec(es[0].1, id, props))] + walk_entries_spec(
            es.drop_first(),
            id,
            props,
        )
    }
}

pub proof fn lemma_walk_entries_index(es: Seq<(Seq<u8>, FsModel)>, id: Seq<u8>, props: Seq<u8>)
    ensures
        walk_entries_spec(es, id, props).len() == es.len(),
        forall|k: int| 0 <= k < es.len() ==> #[trigger] walk_entries_spec(es, id, props)[k] == (
            es[k].0,
            walk_spec(es[k].1, id, props),
        ),
    decreases es,
{
    if es.len() > 0 {
        lemma_walk_entries_index(es.drop_first(), id, props);
        assert forall|k: int| 0 <= k < es.len() implies #[trigger] walk_entries_spec(
            es,
            id,
            props,
        )[k] == (es[k].0, walk_spec(es[k].1, id, props)) by {
            if k > 0 {
                assert(walk_entries_spec(es, id, props)[k] == walk_entries_spec(
                    es.drop_first(),
                    id,
                    props,
                )[k - 1]);
                assert(es.drop_first()[k - 1] == es[k]);
            }
        }
    }
}

/// A child's path under its parent: the entry name alone for the file
/// itself, the name, a slash and the rest below a folder.
pub open spec fn prepend_path(name: Seq<u8>, p: Seq<u8>) -> Seq<u8> {
    if p.len() == 0 {
        name
    } else {
        name + seq![SLASH] + p
    }
}

/// Relative paths of the files the walk rewrites, with the bytes written.
pub open spec fn modified_spec(t: FsModel, id: Seq<u8>, props: Seq<u8>) -> Seq<(Seq<u8>, Seq<u8>)>
    decreases t,
{
    match t {
        FsModel::File(b) => if file_modified(b, id) {
            seq![(Seq::empty(), process_spec(b, id, props))]
        } else {
            Seq::empty()
        },
        FsModel::Dir(es) => modified_entries_spec(es, id, props),
    }
}

pub open spec fn modified_entries_spec(
    es: Seq<(Seq<u8>, FsModel)>,
    id: Seq<u8>,
    props: Seq<u8>,
) -> Seq<(Seq<u8>, Seq<u8>)>
    decreases es,
{
    if es.len() == 0 {
        Seq::empty()
    } else {
        modified_spec(es[0].1, id, props).map_values(
            |w: (Seq<u8>, Seq<u8>)| (prepend_path(es[0].0, w.0), w.1),
        ) + modified_entries_spec(es.drop_first(), id, props)
    }
}

/// Relative paths of the files skipped as non-documents.
pub open spec fn skipped_spec(t: FsModel) -> Seq<Seq<u8>>
    decreases t,
{
    match t {
        FsModel::File(b) => if decode_spec(b) is None {
            seq![Seq::empty()]
        } else {
            Seq::empty()
        },
        FsModel::Dir(es) => skipped_entries_spec(es),
    }
}

pub open spec fn skipped_entries_spec(es: Seq<(Seq<u8>, FsModel)>) -> Seq<Seq<u8>>
    decreases es,
{
    if es.len() == 0 {
        Seq::empty()
    } else {
        skipped_spec(es[0].1).map_values(|p: Seq<u8>| prepend_path(es[0].0, p))
            + skipped_entries_spec(es.drop_first())
    }
}

/// Relative paths of the documents that hold no block with the identifier.
pub open spec fn unmatched_spec(t: FsModel, id: Seq<u8>) -> Seq<Seq<u8>>
    decreases t,
{
    match t {
        FsModel::File(b) => if decode_spec(b) is Some && !file_modified(b, id) {
            seq![Seq::empty()]
        } else {
            Seq::empty()
        },
        FsModel::Dir(es) => unmatched_entries_spec(es, id),
    }
}

pub open spec fn unmatched_entries_spec(es: Seq<(Seq<u8>, FsModel)>, id: Seq<u8>) -> Seq<Seq<u8>>
    decreases es,
{
    if es.len() == 0 {
        Seq::empty()
    } else {
        unmatched_spec(es[0].1, id).map_values(|p: Seq<u8>| prepend_path(es[0].0, p))
            + unmatched_entries_spec(es.drop_first(), id)
    }
}

pub open spec fn paths_view(v: Seq<Vec<u8>>) -> Seq<Seq<u8>> {
    v.map_values(|p: Vec<u8>| p@)
}

pub open spec fn writes_view(v: Seq<(Vec<u8>, Vec<u8>)>) -> Seq<(Seq<u8>, Seq<u8>)> {
    v.map_values(|w: (Vec<u8>, Vec<u8>)| (w.0@, w.1@))
}

/// The aggregated result of one walk: per file, whether it was rewritten,
/// skipped as a non-document, decoded but left alone for want of the block,
/// or failed with an I/O error. The walk itself reports no failures; the
/// caller that performs real reads and writes records them here, so no
/// error is ever dropped.
pub struct Outcome {
    pub modified: Vec<(Vec<u8>, Vec<u8>)>,
    pub skipped: Vec<Vec<u8>>,
    pub unmatched: Vec<Vec<u8>>,
    pub failed: Vec<Vec<u8>>,
}

impl Outcome {
    pub fn new() -> (r: Outcome)
        ensures
            r.modified@.len() == 0,
            r.skipped@.len() == 0,
            r.unmatched@.len() == 0,
            r.failed@.len() == 0,
    {
        Outcome { modified: Vec::new(), skipped: Vec::new(), unmatched: Vec::new(), failed: Vec::new() }
    }

    /// Records one file whose read or write failed; never dropped silently.
    pub fn record_failed(&mut self, path: Vec<u8>)
        ensures
            final(self).modified == old(self).modified,
            final(self).skipped == old(self).skipped,
            final(self).unmatched == old(self).unmatched,
            final(self).failed@ == old(self).failed@.push(path),
    {
        self.failed.push(path);
    }
}

} // verus!

verus! {

proof fn lemma_modified_entries_concat(
    u: Seq<(Seq<u8>, FsModel)>,
    v: Seq<(Seq<u8>, FsModel)>,
    id: Seq<u8>,
    props: Seq<u8>,
)
    ensures
        modified_entries_spec(u + v, id, props) == modified_entries_spec(u, id, props)
            + modified_entries_spec(v, id, props),
    decreases u,
{
    if u.len() == 0 {
        assert(u + v =~= v);
        assert(modified_entries_spec(u, id, props) == Seq::<(Seq<u8>, Seq<u8>)>::empty());
        assert(modified_entries_spec(u + v, id, props) =~= modified_entries_spec(u, id, props)
            + modified_entries_spec(v, id, props));
    } else {
        assert((u + v)[0] == u[0]);
        assert((u + v).drop_first() =~= u.drop_first() + v);
        lemma_modified_entries_concat(u.drop_first(), v, id, props);
        assert(modified_entries_spec(u + v, id, props) =~= modified_entries_spec(u, id, props)
            + modified_entries_spec(v, id, props));
    }
}

proof fn lemma_skipped_entries_concat(u: Seq<(Seq<u8>, FsModel)>, v: Seq<(Seq<u8>, FsModel)>)
    ensures
        skipped_entries_spec(u + v) == skipped_entries_spec(u) + skipped_entries_spec(v),
    decreases u,
{
    if u.len() == 0 {
        assert(u + v =~= v);
        assert(skipped_entries_spec(u + v) =~= skipped_entries_spec(u) + skipped_entries_spec(v));
    } else {
        assert((u + v)[0] == u[0]);
        assert((u + v).drop_first() =~= u.drop_first() + v);
        lemma_skipped_entries_concat(u.drop_first(), v);
        assert(skipped_entries_spec(u + v) =~= skipped_entries_spec(u) + skipped_entries_spec(v));
    }
}

proof fn lemma_unmatched_entries_concat(
    u: Seq<(Seq<u8>, FsModel)>,
    v: Seq<(Seq<u8>, FsModel)>,
    id: Seq<u8>,
)
    ensures
        unmatched_entries_spec(u + v, id) == unmatched_entries_spec(u, id)
            + unmatched_entries_spec(v, id),
    decreases u,
{
    if u.len() == 0 {
        assert(u + v =~= v);
        assert(unmatched_entries_spec(u + v, id) =~= unmatched_entries_spec(u, id)
            + unmatched_entries_spec(v, id));
    } else {
        assert((u + v)[0] == u[0]);
        assert((u + v).drop_first() =~= u.drop_first() + v);
        lemma_unmatched_entries_concat(u.drop_first(), v, id);
        assert(unmatched_entries_spec(u + v, id) =~= unmatched_entries_spec(u, id)
            + unmatched_entries_spec(v, id));
    }
}

fn prefixed_path(name: &[u8], p: &[u8]) -> (r: Vec<u8>)
    ensures
        r@ == prepend_path(name@, p@),
{
    let mut out = copy_bytes(name);
    if p.len() > 0 {
        out.push(crate::json_scan::SLASH);
        crate::document::push_bytes(&mut out, p);
        proof {
            assert(out@ =~= prepend_path(name@, p@));
        }
    }
    out
}

fn append_prefixed_paths(dst: &mut Vec<Vec<u8>>, name: &[u8], src: &Vec<Vec<u8>>)
    ensures
        final(dst)@.len() == old(dst)@.len() + src@.len(),
        forall|k: int| 0 <= k < old(dst)@.len() ==> final(dst)@[k] == old(dst)@[k],
        forall|k: int| 0 <= k < src@.len() ==> (#[trigger] final(dst)@[old(dst)@.len() + k])@
            == prepend_path(name@, src@[k]@),
{
    let mut j: usize = 0;
    while j < src.len()
        invariant
            0 <= j <= src@.len(),
            dst@.len() == old(dst)@.len() + j,
            forall|k: int| 0 <= k < old(dst)@.len() ==> dst@[k] == old(dst)@[k],
            forall|k: int| 0 <= k < j ==> (#[trigger] dst@[old(dst)@.len() + k])@
                == prepend_path(name@, src@[k]@),
        decreases src@.len() - j,
    {
        let np = prefixed_path(name, src[j].as_slice());
        dst.push(np);
        j = j + 1;
    }
}

fn append_prefixed_writes(
    dst: &mut Vec<(Vec<u8>, Vec<u8>)>,
    name: &[u8],
    src: &Vec<(Vec<u8>, Vec<u8>)>,
)
    ensures
        final(dst)@.len() == old(dst)@.len() + src@.len(),
        forall|k: int| 0 <= k < old(dst)@.len() ==> final(dst)@[k] == old(dst)@[k],
        forall|k: int| 0 <= k < src@.len() ==> (#[trigger] final(dst)@[old(dst)@.len() + k]).0@
            == prepend_path(name@, src@[k].0@) && final(dst)@[old(dst)@.len() + k].1@
            == src@[k].1@,
{
    let mut j: usize = 0;
    while j < src.len()
        invariant
            0 <= j <= src@.len(),
            dst@.len() == old(dst)@.len() + j,
            forall|k: int| 0 <= k < old(dst)@.len() ==> dst@[k] == old(dst)@[k],
            forall|k: int| 0 <= k < j ==> (#[trigger] dst@[old(dst)@.len() + k]).0@
                == prepend_path(name@, src@[k].0@) && dst@[old(dst)@.len() + k].1@
                == src@[k].1@,
        decreases src@.len() - j,
    {
        let np = prefixed_path(name, src[j].0.as_slice());
        let nb = copy_bytes(src[j].1.as_slice());
        dst.push((np, nb));
        j = j + 1;
    }
}

} // verus!

verus! {

proof fn lemma_modified_entries_single(e: (Seq<u8>, FsModel), id: Seq<u8>, props: Seq<u8>)
    ensures
        modified_entries_spec(seq![e], id, props) == modified_spec(e.1, id, props).map_values(
            |w: (Seq<u8>, Seq<u8>)| (prepend_path(e.0, w.0), w.1),
        ),
{
    let s = seq![e];
    assert(s[0] == e);
    assert(s.drop_first() =~= Seq::<(Seq<u8>, FsModel)>::empty());
    let a = modified_entries_spec(s, id, props);
    let b = modified_spec(e.1, id, props).map_values(
        |w: (Seq<u8>, Seq<u8>)| (prepend_path(e.0, w.0), w.1),
    );
    let inner = modified_spec(e.1, id, props);
    assert(modified_entries_spec(s.drop_first(), id, props).len() == 0);
    assert(a.len() == inner.len());
    assert forall|m: int| 0 <= m < a.len() implies a[m] == b[m] by {
        assert(a[m] == inner.map_values(
            |w: (Seq<u8>, Seq<u8>)| (prepend_path(s[0].0, w.0), w.1),
        )[m]);
        assert(inner.map_values(
            |w: (Seq<u8>, Seq<u8>)| (prepend_path(s[0].0, w.0), w.1),
        )[m] == (prepend_path(s[0].0, inner[m].0), inner[m].1));
        assert(b[m] == (prepend_path(e.0, inner[m].0), inner[m].1));
    }
    assert(a =~= b);
}

proof fn lemma_skipped_entries_single(e: (Seq<u8>, FsModel))
    ensures
        skipped_entries_spec(seq![e]) == skipped_spec(e.1).map_values(
            |p: Seq<u8>| prepend_path(e.0, p),
        ),
{
    let s = seq![e];
    assert(s[0] == e);
    assert(s.drop_first() =~= Seq::<(Seq<u8>, FsModel)>::empty());
    let a = skipped_entries_spec(s);
    let b = skipped_spec(e.1).map_values(|p: Seq<u8>| prepend_path(e.0, p));
    let inner = skipped_spec(e.1);
    assert(skipped_entries_spec(s.drop_first()).len() == 0);
    assert(a.len() == inner.len());
    assert forall|m: int| 0 <= m < a.len() implies a[m] == b[m] by {
        assert(a[m] == inner.map_values(|p: Seq<u8>| prepend_path(s[0].0, p))[m]);
        assert(inner.map_values(|p: Seq<u8>| prepend_path(s[0].0, p))[m] == prepend_path(
            s[0].0,
            inner[m],
        ));
        assert(b[m] == prepend_path(e.0, inner[m]));
    }
    assert(a =~= b);
}

proof fn lemma_unmatched_entries_single(e: (Seq<u8>, FsModel), id: Seq<u8>)
    ensures
        unmatched_entries_spec(seq![e], id) == unmatched_spec(e.1, id).map_values(
            |p: Seq<u8>| prepend_path(e.0, p),
        ),
{
    let s = seq![e];
    assert(s[0] == e);
    assert(s.drop_first() =~= Seq::<(Seq<u8>, FsModel)>::empty());
    let a = unmatched_entries_spec(s, id);
    let b = unmatched_spec(e.1, id).map_values(|p: Seq<u8>| prepend_path(e.0, p));
    let inner = unmatched_spec(e.1, id);
    assert(unmatched_entries_spec(s.drop_first(), id).len() == 0);
    assert(a.len() == inner.len());
    assert forall|m: int| 0 <= m < a.len() implies a[m] == b[m] by {
        assert(a[m] == inner.map_values(|p: Seq<u8>| prepend_path(s[0].0, p))[m]);
        assert(inner.map_values(|p: Seq<u8>| prepend_path(s[0].0, p))[m] == prepend_path(
            s[0].0,
            inner[m],
        ));
        assert(b[m] == prepend_path(e.0, inner[m]));
    }
    assert(a =~= b);
}

fn walk_tree(tree: &FsTree, uuid: &[u8], props: &[u8]) -> (r: (FsTree, Outcome))
    ensures
        r.0@ == walk_spec(tree@, uuid@, props@),
        writes_view(r.1.modified@) == modified_spec(tree@, uuid@, props@),
        paths_view(r.1.skipped@) == skipped_spec(tree@),
        paths_view(r.1.unmatched@) == unmatched_spec(tree@, uuid@),
        r.1.failed@.len() == 0,
    decreases tree,
{
    match tree {
        FsTree::File(b) => {
            let mut oc = Outcome::new();
            match decode(b.as_slice()) {
                Err(_) => {
                    oc.skipped.push(Vec::new());
                    let nb = copy_bytes(b.as_slice());
                    proof {
                        assert(writes_view(oc.modified@) =~= modified_spec(
                            tree@,
                            uuid@,
                            props@,
                        ));
                        assert(paths_view(oc.skipped@) =~= skipped_spec(tree@));
                        assert(paths_view(oc.unmatched@) =~= unmatched_spec(tree@, uuid@));
                    }
                    (FsTree::File(nb), oc)
                },
                Ok(mut d) => {
                    let np = copy_bytes(props);
                    match d.update_block_props(uuid, np) {
                        Ok(_) => {
                            let nb = encode(&d);
                            let path: Vec<u8> = Vec::new();
                            let wb = copy_bytes(nb.as_slice());
                            oc.modified.push((path, wb));
                            proof {
                                assert(file_modified(b@, uuid@));
                                assert(nb@ == process_spec(b@, uuid@, props@));
                                assert(writes_view(oc.modified@) =~= modified_spec(
                                    tree@,
                                    uuid@,
                                    props@,
                                ));
                                assert(paths_view(oc.skipped@) =~= skipped_spec(tree@));
                                assert(paths_view(oc.unmatched@) =~= unmatched_spec(
                                    tree@,
                                    uuid@,
                                ));
                            }
                            (FsTree::File(nb), oc)
                        },
                        Err(_) => {
                            let nb = copy_bytes(b.as_slice());
                            oc.unmatched.push(Vec::new());
                            proof {
                                assert(!file_modified(b@, uuid@));
                                assert(process_spec(b@, uuid@, props@) == b@);
                                assert(writes_view(oc.modified@) =~= modified_spec(
                                    tree@,
                                    uuid@,
                                    props@,
                                ));
                                assert(paths_view(oc.skipped@) =~= skipped_spec(tree@));
                                assert(paths_view(oc.unmatched@) =~= unmatched_spec(
                                    tree@,
                                    uuid@,
                                ));
                            }
                            (FsTree::File(nb), oc)
                        },
                    }
                },
            }
        },
        FsTree::Dir(es) => {
            let mut new_es: Vec<(Vec<u8>, FsTree)> = Vec::new();
            let mut oc = Outcome::new();
            let mut k: usize = 0;
            proof {
                assert(entries_view(es@.take(0)) =~= Seq::<(Seq<u8>, FsModel)>::empty());
            }
            while k < es.len()
                invariant
                    *tree == FsTree::Dir(*es),
                    0 <= k <= es@.len(),
                    new_es@.len() == k,
                    forall|m: int| 0 <= m < k ==> (#[trigger] new_es@[m]).0@ == es@[m].0@
                        && new_es@[m].1@ == walk_spec(es@[m].1@, uuid@, props@),
                    writes_view(oc.modified@) == modified_entries_spec(
                        entries_view(es@.take(k as int)),
                        uuid@,
                        props@,
                    ),
                    paths_view(oc.skipped@) == skipped_entries_spec(
                        entries_view(es@.take(k as int)),
                    ),
                    paths_view(oc.unmatched@) == unmatched_entries_spec(
                        entries_view(es@.take(k as int)),
                        uuid@,
                    ),
                    oc.failed@.len() == 0,
                decreases es@.len() - k,
            {
                let entry = &es[k];
                proof {
                    let ki = k as int;
                    let ghost t = *tree;
                    assert(t == FsTree::Dir(*es));
                    assert(decreases_to!(t => t->Dir_0));
                    assert(decreases_to!(t->Dir_0 => t->Dir_0@));
                    vstd::seq::axiom_seq_index_decreases(es@, ki);
                    assert(decreases_to!(es@ => es@[ki]));
                    assert(decreases_to!(es@[ki] => es@[ki].1));
                }
                let (sub, sub_oc) = walk_tree(&entry.1, uuid, props);
                let name = copy_bytes(entry.0.as_slice());
                let ghost prev_modified = oc.modified@;
                let ghost prev_skipped = oc.skipped@;
                let ghost prev_unmatched = oc.unmatched@;
                append_prefixed_writes(&mut oc.modified, entry.0.as_slice(), &sub_oc.modified);
                append_prefixed_paths(&mut oc.skipped, entry.0.as_slice(), &sub_oc.skipped);
                append_prefixed_paths(&mut oc.unmatched, entry.0.as_slice(), &sub_oc.unmatched);
                new_es.push((name, sub));
                proof {
                    let ki = k as int;
                    let evk = entries_view(es@.take(ki));
                    let ek = (es@[ki].0@, es@[ki].1@);
                    assert(es@.take(ki + 1) =~= es@.take(ki).push(es@[ki]));
                    lemma_entries_view_push(es@.take(ki), es@[ki]);
                    assert(entries_view(es@.take(ki + 1)) == evk + seq![ek]);
                    // one-entry lists
                    lemma_modified_entries_single(ek, uuid@, props@);
                    lemma_skipped_entries_single(ek);
                    lemma_unmatched_entries_single(ek, uuid@);
                    lemma_modified_entries_concat(evk, seq![ek], uuid@, props@);
                    lemma_skipped_entries_concat(evk, seq![ek]);
                    lemma_unmatched_entries_concat(evk, seq![ek], uuid@);
                    // align the appended vectors with the spec lists
                    assert(writes_view(oc.modified@) =~= modified_entries_spec(
                        entries_view(es@.take(ki + 1)),
                        uuid@,
                        props@,
                    )) by {
                        let lhs = writes_view(oc.modified@);
                        let rhs = modified_entries_spec(entries_view(es@.take(ki + 1)), uuid@, props@);
                        let childw = writes_view(sub_oc.modified@);
                        assert(childw == modified_spec(ek.1, uuid@, props@));
                        assert(lhs.len() == rhs.len());
                        assert forall|m: int| 0 <= m < lhs.len() implies lhs[m] == rhs[m] by {
                            if m < prev_modified.len() {
                                assert(oc.modified@[m] == prev_modified[m]);
                            } else {
                                let j = m - prev_modified.len();
                                assert((oc.modified@[prev_modified.len() + j]).0@ == prepend_path(
                                    es@[ki].0@,
                                    sub_oc.modified@[j].0@,
                                ));
                                assert(childw[j] == (sub_oc.modified@[j].0@, sub_oc.modified@[j].1@));
                            }
                        }
                    }
                    assert(paths_view(oc.skipped@) =~= skipped_entries_spec(
                        entries_view(es@.take(ki + 1)),
                    )) by {
                        let lhs = paths_view(oc.skipped@);
                        let rhs = skipped_entries_spec(entries_view(es@.take(ki + 1)));
                        let childp = paths_view(sub_oc.skipped@);
                        assert(childp == skipped_spec(ek.1));
                        assert(lhs.len() == rhs.len());
                        assert forall|m: int| 0 <= m < lhs.len() implies lhs[m] == rhs[m] by {
                            if m < prev_skipped.len() {
                                assert(oc.skipped@[m] == prev_skipped[m]);
                            } else {
                                let j = m - prev_skipped.len();
                                assert((oc.skipped@[prev_skipped.len() + j])@ == prepend_path(
                                    es@[ki].0@,
                                    sub_oc.skipped@[j]@,
                                ));
                                assert(childp[j] == sub_oc.skipped@[j]@);
                            }
                        }
                    }
                    assert(paths_view(oc.unmatched@) =~= unmatched_entries_spec(
                        entries_view(es@.take(ki + 1)),
                        uuid@,
                    )) by {
                        let lhs = paths_view(oc.unmatched@);
                        let rhs = unmatched_entries_spec(entries_view(es@.take(ki + 1)), uuid@);
                        let childp = paths_view(sub_oc.unmatched@);
                        assert(childp == unmatched_spec(ek.1, uuid@));
                        assert(lhs.len() == rhs.len());
                        assert forall|m: int| 0 <= m < lhs.len() implies lhs[m] == rhs[m] by {
                            if m < prev_unmatched.len() {
                                assert(oc.unmatched@[m] == prev_unmatched[m]);
                            } else {
                                let j = m - prev_unmatched.len();
                                assert((oc.unmatched@[prev_unmatched.len() + j])@ == prepend_path(
                                    es@[ki].0@,
                                    sub_oc.unmatched@[j]@,
                                ));
                                assert(childp[j] == sub_oc.unmatched@[j]@);
                            }
                        }
                    }
                }
                k = k + 1;
            }
            let result = FsTree::Dir(new_es);
            proof {
                assert(es@.take(es@.len() as int) =~= es@);
                lemma_entries_view_index(es@);
                lemma_entries_view_index(new_es@);
                lemma_walk_entries_index(entries_view(es@), uuid@, props@);
                assert(entries_view(new_es@) =~= walk_entries_spec(
                    entries_view(es@),
                    uuid@,
                    props@,
                )) by {
                    assert forall|m: int| 0 <= m < es@.len() implies entries_view(new_es@)[m]
                        == walk_entries_spec(entries_view(es@), uuid@, props@)[m] by {
                        assert(entries_view(new_es@)[m] == (new_es@[m].0@, new_es@[m].1@));
                        assert(entries_view(es@)[m] == (es@[m].0@, es@[m].1@));
                    }
                }
            }
            (result, oc)
        },
    }
}

/// Walks one tree snapshot for one upsert request.
pub struct JsonFileSearcher;

impl JsonFileSearcher {
    pub fn new() -> (r: Self) {
        JsonFileSearcher
    }

    /// The recursive search-and-update over a whole tree: every file whose
    /// document holds the block is rewritten with the new property table;
    /// every other file keeps its exact bytes; nothing stops the walk early.
    pub fn search_and_replace_props(&self, tree: &FsTree, uuid: &[u8], props: &[u8]) -> (r: (
        FsTree,
        Outcome,
    ))
        ensures
            r.0@ == walk_spec(tree@, uuid@, props@),
            writes_view(r.1.modified@) == modified_spec(tree@, uuid@, props@),
            paths_view(r.1.skipped@) == skipped_spec(tree@),
            paths_view(r.1.unmatched@) == unmatched_spec(tree@, uuid@),
            r.1.failed@.len() == 0,
    {
        walk_tree(tree, uuid, props)
    }
}

} // verus!

verus! {

use crate::document::{
    lemma_decode_wf, lemma_locate_bounds, lemma_locate_update, lemma_round_trip,
    lemma_update_twice, lemma_update_wf,
};

/// Position of the first entry with the given name, scanning from `j`.
pub open spec fn entry_index(es: Seq<(Seq<u8>, FsModel)>, name: Seq<u8>, j: int) -> Option<int>
    decreases es.len() - j,
{
    if j < 0 || j >= es.len() {
        None
    } else if es[j].0 == name {
        Some(j)
    } else {
        entry_index(es, name, j + 1)
    }
}

pub proof fn lemma_entry_index_bounds(es: Seq<(Seq<u8>, FsModel)>, name: Seq<u8>, j: int, r: int)
    requires
        entry_index(es, name, j) == Some(r),
    ensures
        j <= r < es.len(),
        es[r].0 == name,
    decreases es.len() - j,
{
    if !(j < 0 || j >= es.len()) && es[j].0 != name {
        lemma_entry_index_bounds(es, name, j + 1, r);
    }
}

/// The bytes of the file that a path names inside a tree snapshot.
pub open spec fn file_at(t: FsModel, path: Seq<Seq<u8>>) -> Option<Seq<u8>>
    decreases t, path.len(),
{
    match t {
        FsModel::File(b) => if path.len() == 0 {
            Some(b)
        } else {
            None
        },
        FsModel::Dir(es) => if path.len() == 0 {
            None
        } else {
            match entry_index(es, path[0], 0) {
                None => None,
                Some(j) => {
                    if 0 <= j < es.len() {
                        file_at(es[j].1, path.drop_first())
                    } else {
                        None
                    }
                },
            }
        },
    }
}

proof fn lemma_entry_index_congruent(
    es: Seq<(Seq<u8>, FsModel)>,
    fs: Seq<(Seq<u8>, FsModel)>,
    name: Seq<u8>,
    j: int,
)
    requires
        es.len() == fs.len(),
        forall|k: int| 0 <= k < es.len() ==> (#[trigger] fs[k]).0 == es[k].0,
    ensures
        entry_index(fs, name, j) == entry_index(es, name, j),
    decreases es.len() - j,
{
    if !(j < 0 || j >= es.len()) && es[j].0 != name {
        lemma_entry_index_congruent(es, fs, name, j + 1);
    }
}

/// Each file's fate depends on its own bytes alone: at every path, the
/// walked tree holds exactly the processed bytes of the file the original
/// tree held there, and no other paths appear or vanish.
pub proof fn lemma_walk_file_at(t: FsModel, id: Seq<u8>, props: Seq<u8>, path: Seq<Seq<u8>>)
    ensures
        match file_at(t, path) {
            Some(b) => file_at(walk_spec(t, id, props), path) == Some(
                process_spec(b, id, props),
            ),
            None => file_at(walk_spec(t, id, props), path) is None,
        },
    decreases t,
{
    match t {
        FsModel::File(b) => {},
        FsModel::Dir(es) => {
            let wes = walk_entries_spec(es, id, props);
            lemma_walk_entries_index(es, id, props);
            if path.len() > 0 {
                assert forall|k: int| 0 <= k < es.len() implies (#[trigger] wes[k]).0
                    == es[k].0 by {}
                lemma_entry_index_congruent(es, wes, path[0], 0);
                match entry_index(es, path[0], 0) {
                    None => {},
                    Some(j) => {
                        lemma_entry_index_bounds(es, path[0], 0, j);
                        assert(wes[j].1 == walk_spec(es[j].1, id, props));
                        vstd::seq::axiom_seq_index_decreases(es, j);
                        assert(decreases_to!(es => es[j]));
                        assert(decreases_to!(es[j] => es[j].1));
                        lemma_walk_file_at(es[j].1, id, props, path.drop_first());
                    },
                }
            }
        },
    }
}

/// Single- or multiple-match update: a path whose document holds the block
/// gets exactly the rewritten document; a path whose file holds no match,
/// or no document at all, keeps its exact bytes.
pub proof fn lemma_upsert_at_path(
    t: FsModel,
    id: Seq<u8>,
    props: Seq<u8>,
    path: Seq<Seq<u8>>,
    b: Seq<u8>,
)
    requires
        file_at(t, path) == Some(b),
    ensures
        file_modified(b, id) ==> file_at(walk_spec(t, id, props), path) == Some(
            ser_doc(
                update_doc(
                    decode_spec(b)->Some_0,
                    locate_spec(decode_spec(b)->Some_0, id)->Some_0,
                    props,
                ),
            ),
        ),
        !file_modified(b, id) ==> file_at(walk_spec(t, id, props), path) == Some(b),
{
    lemma_walk_file_at(t, id, props, path);
}

/// The walk never stops at a first match: with the block present in the
/// files at two paths, both are rewritten.
pub proof fn lemma_multiple_matches(
    t: FsModel,
    id: Seq<u8>,
    props: Seq<u8>,
    p1: Seq<Seq<u8>>,
    p2: Seq<Seq<u8>>,
    b1: Seq<u8>,
    b2: Seq<u8>,
)
    requires
        file_at(t, p1) == Some(b1),
        file_at(t, p2) == Some(b2),
        file_modified(b1, id),
        file_modified(b2, id),
    ensures
        file_at(walk_spec(t, id, props), p1) == Some(process_spec(b1, id, props)),
        file_at(walk_spec(t, id, props), p2) == Some(process_spec(b2, id, props)),
{
    lemma_walk_file_at(t, id, props, p1);
    lemma_walk_file_at(t, id, props, p2);
}

/// Skip and continue: a file that does not decode skips only itself — its
/// bytes survive unchanged, and every other file is still processed exactly
/// as if the malformed file were absent.
pub proof fn lemma_skip_and_continue(
    t: FsModel,
    id: Seq<u8>,
    props: Seq<u8>,
    bad_path: Seq<Seq<u8>>,
    bad: Seq<u8>,
    p: Seq<Seq<u8>>,
    b: Seq<u8>,
)
    requires
        file_at(t, bad_path) == Some(bad),
        decode_spec(bad) is None,
        file_at(t, p) == Some(b),
    ensures
        file_at(walk_spec(t, id, props), bad_path) == Some(bad),
        file_at(walk_spec(t, id, props), p) == Some(process_spec(b, id, props)),
{
    lemma_walk_file_at(t, id, props, bad_path);
    lemma_walk_file_at(t, id, props, p);
}

/// No file of the tree holds the block.
pub open spec fn no_match_in(t: FsModel, id: Seq<u8>) -> bool
    decreases t,
{
    match t {
        FsModel::File(b) => !file_modified(b, id),
        FsModel::Dir(es) => no_match_entries(es, id),
    }
}

pub open spec fn no_match_entries(es: Seq<(Seq<u8>, FsModel)>, id: Seq<u8>) -> bool
    decreases es,
{
    if es.len() == 0 {
        true
    } else {
        no_match_in(es[0].1, id) && no_match_entries(es.drop_first(), id)
    }
}

proof fn lemma_no_match_entries_index(es: Seq<(Seq<u8>, FsModel)>, id: Seq<u8>)
    requires
        no_match_entries(es, id),
    ensures
        forall|k: int| 0 <= k < es.len() ==> no_match_in((#[trigger] es[k]).1, id),
    decreases es,
{
    if es.len() > 0 {
        lemma_no_match_entries_index(es.drop_first(), id);
        assert forall|k: int| 0 <= k < es.len() implies no_match_in((#[trigger] es[k]).1, id) by {
            if k > 0 {
                assert(es.drop_first()[k - 1] == es[k]);
            }
        }
    }
}

/// No match anywhere: the upsert modifies no file; the tree comes back
/// exactly as it was.
pub proof fn lemma_no_match_no_change(t: FsModel, id: Seq<u8>, props: Seq<u8>)
    requires
        no_match_in(t, id),
    ensures
        walk_spec(t, id, props) == t,
    decreases t,
{
    match t {
        FsModel::File(b) => {},
        FsModel::Dir(es) => {
            let wes = walk_entries_spec(es, id, props);
            lemma_walk_entries_index(es, id, props);
            lemma_no_match_entries_index(es, id);
            assert forall|k: int| 0 <= k < es.len() implies #[trigger] wes[k] == es[k] by {
                vstd::seq::axiom_seq_index_decreases(es, k);
                assert(decreases_to!(es => es[k]));
                assert(decreases_to!(es[k] => es[k].1));
                lemma_no_match_no_change(es[k].1, id, props);
            }
            assert(wes =~= es);
        },
    }
}

/// Idempotence of one file's processing.
pub proof fn lemma_process_idempotent(b: Seq<u8>, id: Seq<u8>, props: Seq<u8>)
    requires
        crate::json_scan::wf_props_text(props),
    ensures
        process_spec(process_spec(b, id, props), id, props) == process_spec(b, id, props),
{
    match decode_spec(b) {
        None => {},
        Some(dm) => {
            match locate_spec(dm, id) {
                None => {},
                Some(ix) => {
                    lemma_decode_wf(b, dm);
                    lemma_locate_bounds(dm.blocks, id, 0, ix);
                    lemma_update_wf(dm, ix, props);
                    let upd = update_doc(dm, ix, props);
                    lemma_round_trip(upd);
                    lemma_locate_update(dm, ix, props, id, 0);
                    lemma_update_twice(dm, ix, props);
                },
            }
        },
    }
}

/// Idempotence: applying the same upsert twice yields the same tree as
/// applying it once.
pub proof fn lemma_walk_idempotent(t: FsModel, id: Seq<u8>, props: Seq<u8>)
    requires
        crate::json_scan::wf_props_text(props),
    ensures
        walk_spec(walk_spec(t, id, props), id, props) == walk_spec(t, id, props),
    decreases t,
{
    match t {
        FsModel::File(b) => {
            lemma_process_idempotent(b, id, props);
        },
        FsModel::Dir(es) => {
            let w1 = walk_entries_spec(es, id, props);
            let w2 = walk_entries_spec(w1, id, props);
            lemma_walk_entries_index(es, id, props);
            lemma_walk_entries_index(w1, id, props);
            assert forall|k: int| 0 <= k < es.len() implies #[trigger] w2[k] == w1[k] by {
                vstd::seq::axiom_seq_index_decreases(es, k);
                assert(decreases_to!(es => es[k]));
                assert(decreases_to!(es[k] => es[k].1));
                lemma_walk_idempotent(es[k].1, id, props);
            }
            assert(w2 =~= w1);
        },
    }
}

/// How deep the embedding program's snapshot of the real directory tree may
/// descend: the bound that makes a symlink cycle on disk terminate.
pub const MAX_DEPTH: u64 = 64;

} // verus!

verus! {

/// Classification of one directory entry, as the walker sees it.
#[derive(Clone, Copy, Debug, PartialEq, Eq, Structural)]
pub enum FileSystemEntity {
    File,
    Folder,
}

impl FileSystemEntity {
    /// Classifies an entry from what the platform reports of it: a folder
    /// exactly when it is a directory; everything else — regular file,
    /// resolved symlink, special entry — is treated as a file.
    pub fn classify(is_file: bool, is_dir: bool) -> (r: Self)
        ensures
            r is Folder <==> (!is_file && is_dir),
    {
        if is_file {
            FileSystemEntity::File
        } else if is_dir {
            FileSystemEntity::Folder
        } else {
            FileSystemEntity::File
        }
    }
}

/// What `str::to_lowercase` makes of a text; the folding depends on the
/// characters alone.
pub uninterp spec fn lower_of(s: Seq<char>) -> Seq<char>;

/// Relies on str::to_lowercase for the folding; its result is collected
/// character for character.
#[verifier::external_body]
fn to_lowercase_chars(s: &str) -> (r: Vec<char>)
    ensures
        r@ == lower_of(s@),
{
    s.to_lowercase().chars().collect()
}

/// Whether `char::is_alphanumeric` accepts a character; a function of the
/// character alone.
pub uninterp spec fn is_unicode_alphanumeric(c: char) -> bool;

/// Relies on char::is_alphanumeric, a pure classification of the character.
pub assume_specification[ char::is_alphanumeric ](c: char) -> (r: bool)
    ensures
        r == is_unicode_alphanumeric(c),
;

/// Relies on String's FromIterator impl: the collected string holds exactly
/// the characters given, in order.
#[verifier::external_body]
fn chars_to_string(v: &Vec<char>) -> (r: String)
    ensures
        r@ == v@,
{
    v.iter().collect()
}

pub open spec fn slug_keep(c: char) -> bool {
    is_unicode_alphanumeric(c) || c == ' ' || c == '.'
}

pub open spec fn slug_map(c: char) -> char {
    if c == ' ' {
        '-'
    } else {
        c
    }
}

/// The slug of an already-lowered text: letters, digits and dots kept,
/// spaces turned to dashes, everything else dropped.
pub open spec fn slug_chars(s: Seq<char>) -> Seq<char>
    decreases s.len(),
{
    if s.len() == 0 {
        Seq::empty()
    } else {
        let rest = slug_chars(s.drop_last());
        if slug_keep(s.last()) {
            rest.push(slug_map(s.last()))
        } else {
            rest
        }
    }
}

pub open spec fn slug_of(s: Seq<char>) -> Seq<char> {
    slug_chars(lower_of(s))
}

/// A URL-friendly tag made from a text: lowered, stripped to letters,
/// digits, spaces and dots, with spaces turned to dashes.
pub struct Slug(pub String);

impl Slug {
    pub fn new(s: &str) -> (r: Slug)
        ensures
            r.0@ == slug_of(s@),
    {
        let lowered = to_lowercase_chars(s);
        let mut kept: Vec<char> = Vec::new();
        let mut i: usize = 0;
        proof {
            assert(lowered@.take(0) =~= Seq::<char>::empty());
        }
        while i < lowered.len()
            invariant
                0 <= i <= lowered@.len(),
                kept@ == slug_chars(lowered@.take(i as int)),
            decreases lowered@.len() - i,
        {
            let c = lowered[i];
            let ghost prev = lowered@.take(i as int);
            let ghost cur = lowered@.take(i as int + 1);
            proof {
                assert(cur.drop_last() =~= prev);
                assert(cur.last() == c);
            }
            if c.is_alphanumeric() || c == ' ' || c == '.' {
                let mapped: char = if c == ' ' {
                    '-'
                } else {
                    c
                };
                kept.push(mapped);
                proof {
                    assert(kept@ =~= slug_chars(cur));
                }
            } else {
                proof {
                    assert(kept@ =~= slug_chars(cur));
                }
            }
            i = i + 1;
        }
        proof {
            assert(lowered@.take(lowered@.len() as int) =~= lowered@);
        }
        Slug(chars_to_string(&kept))
    }
}

/// Collects the strings met while visiting a JSON value.
pub struct JsonStrVisitor {
    pub collected: Vec<String>,
}

impl JsonStrVisitor {
    pub fn new() -> (r: Self)
        ensures
            r.collected@.len() == 0,
    {
        JsonStrVisitor { collected: Vec::new() }
    }

    pub fn collected(self) -> (r: Vec<String>)
        ensures
            r == self.collected,
    {
        self.collected
    }
}

} // verus!

verus! {

/// One JSON value as handed to the visitor: the decoded shape of a
/// property value.
pub enum JsonValue {
    Null,
    Bool(bool),
    Number(String),
    String(String),
    Array(Vec<JsonValue>),
    Object(Vec<(String, JsonValue)>),
}

/// The mathematical value of a visited JSON value.
pub ghost enum JsonValModel {
    Null,
    Bool(bool),
    Num(Seq<char>),
    Str(Seq<char>),
    Arr(Seq<JsonValModel>),
    Obj(Seq<(Seq<char>, JsonValModel)>),
}

pub open spec fn arr_view(es: Seq<JsonValue>) -> Seq<JsonValModel>
    decreases es,
{
    if es.len() == 0 {
        Seq::empty()
    } else {
        seq![es[0]@] + arr_view(es.drop_first())
    }
}

pub open spec fn obj_view(es: Seq<(String, JsonValue)>) -> Seq<(Seq<char>, JsonValModel)>
    decreases es,
{
    if es.len() == 0 {
        Seq::empty()
    } else {
        seq![(es[0].0@, es[0].1@)] + obj_view(es.drop_first())
    }
}

impl View for JsonValue {
    type V = JsonValModel;

    open spec fn view(&self) -> JsonValModel
        decreases self,
    {
        match self {
            JsonValue::Null => JsonValModel::Null,
            JsonValue::Bool(b) => JsonValModel::Bool(*b),
            JsonValue::Number(n) => JsonValModel::Num(n@),
            JsonValue::String(s) => JsonValModel::Str(s@),
            JsonValue::Array(es) => JsonValModel::Arr(arr_view(es@)),
            JsonValue::Object(es) => JsonValModel::Obj(obj_view(es@)),
        }
    }
}

/// The strings that occur anywhere inside a JSON value, in visiting order.
pub open spec fn strings_in(m: JsonValModel) -> Seq<Seq<char>>
    decreases m,
{
    match m {
        JsonValModel::Str(s) => seq![s],
        JsonValModel::Arr(es) => strings_in_arr(es),
        JsonValModel::Obj(es) => strings_in_obj(es),
        _ => Seq::empty(),
    }
}

pub open spec fn strings_in_arr(es: Seq<JsonValModel>) -> Seq<Seq<char>>
    decreases es,
{
    if es.len() == 0 {
        Seq::empty()
    } else {
        strings_in(es[0]) + strings_in_arr(es.drop_first())
    }
}

pub open spec fn strings_in_obj(es: Seq<(Seq<char>, JsonValModel)>) -> Seq<Seq<char>>
    decreases es,
{
    if es.len() == 0 {
        Seq::empty()
    } else {
        strings_in(es[0].1) + strings_in_obj(es.drop_first())
    }
}



/// A string that the visitor's two closures let through: some call of `op`
/// on these characters gave a text that some call of `predicate` accepted.
pub open spec fn approved<Pred: Fn(&str) -> bool, Op: Fn(&str) -> String>(
    predicate: Pred,
    op: Op,
    s: Seq<char>,
) -> bool {
    exists|x: &str, y: String, z: &str|
        x@ == s && #[trigger] call_ensures(op, (x,), y) && z@ == y@ && #[trigger] call_ensures(
            predicate,
            (z,),
            true,
        )
}

/// A string that some call of `op` mapped to a text that some call of
/// `predicate` rejected.
pub open spec fn rejected<Pred: Fn(&str) -> bool, Op: Fn(&str) -> String>(
    predicate: Pred,
    op: Op,
    s: Seq<char>,
) -> bool {
    exists|x: &str, y: String, z: &str|
        x@ == s && #[trigger] call_ensures(op, (x,), y) && z@ == y@ && #[trigger] call_ensures(
            predicate,
            (z,),
            false,
        )
}

/// The subsequence of `s` selected by `keep`, in order.
pub open spec fn mask(s: Seq<Seq<char>>, keep: Seq<bool>) -> Seq<Seq<char>>
    decreases s.len(),
{
    if s.len() == 0 {
        Seq::empty()
    } else {
        (if keep[0] {
            seq![s[0]]
        } else {
            Seq::empty()
        }) + mask(s.drop_first(), keep.drop_first())
    }
}

pub open spec fn str_views(v: Seq<String>) -> Seq<Seq<char>> {
    v.map_values(|t: String| t@)
}

/// What one visit appends: exactly the strings of the value, in visiting
/// order, each kept or dropped, every kept one approved by the closures and
/// every dropped one rejected by them.
pub open spec fn visit_outcome<Pred: Fn(&str) -> bool, Op: Fn(&str) -> String>(
    predicate: Pred,
    op: Op,
    strings: Seq<Seq<char>>,
    appended: Seq<Seq<char>>,
) -> bool {
    exists|keep: Seq<bool>|
        keep.len() == strings.len() && appended == #[trigger] mask(strings, keep) && (forall|
            n: int,
        |
            0 <= n < keep.len() && keep[n] ==> approved(predicate, op, strings[n])) && (forall|
            n: int,
        |
            0 <= n < keep.len() && !keep[n] ==> rejected(predicate, op, strings[n]))
}

proof fn lemma_mask_concat(s1: Seq<Seq<char>>, s2: Seq<Seq<char>>, k1: Seq<bool>, k2: Seq<bool>)
    requires
        k1.len() == s1.len(),
    ensures
        mask(s1 + s2, k1 + k2) == mask(s1, k1) + mask(s2, k2),
    decreases s1.len(),
{
    if s1.len() == 0 {
        assert(s1 + s2 =~= s2);
        assert(k1 + k2 =~= k2);
        assert(mask(s1, k1) == Seq::<Seq<char>>::empty());
        assert(mask(s1 + s2, k1 + k2) =~= mask(s1, k1) + mask(s2, k2));
    } else {
        assert((s1 + s2)[0] == s1[0]);
        assert((k1 + k2)[0] == k1[0]);
        assert((s1 + s2).drop_first() =~= s1.drop_first() + s2);
        assert((k1 + k2).drop_first() =~= k1.drop_first() + k2);
        lemma_mask_concat(s1.drop_first(), s2, k1.drop_first(), k2);
        assert(mask(s1 + s2, k1 + k2) =~= mask(s1, k1) + mask(s2, k2));
    }
}

proof fn lemma_strings_in_arr_concat(u: Seq<JsonValModel>, v: Seq<JsonValModel>)
    ensures
        strings_in_arr(u + v) == strings_in_arr(u) + strings_in_arr(v),
    decreases u.len(),
{
    if u.len() == 0 {
        assert(u + v =~= v);
        assert(strings_in_arr(u + v) =~= strings_in_arr(u) + strings_in_arr(v));
    } else {
        assert((u + v)[0] == u[0]);
        assert((u + v).drop_first() =~= u.drop_first() + v);
        lemma_strings_in_arr_concat(u.drop_first(), v);
        assert(strings_in_arr(u + v) =~= strings_in_arr(u) + strings_in_arr(v));
    }
}

proof fn lemma_strings_in_obj_concat(
    u: Seq<(Seq<char>, JsonValModel)>,
    v: Seq<(Seq<char>, JsonValModel)>,
)
    ensures
        strings_in_obj(u + v) == strings_in_obj(u) + strings_in_obj(v),
    decreases u.len(),
{
    if u.len() == 0 {
        assert(u + v =~= v);
        assert(strings_in_obj(u + v) =~= strings_in_obj(u) + strings_in_obj(v));
    } else {
        assert((u + v)[0] == u[0]);
        assert((u + v).drop_first() =~= u.drop_first() + v);
        lemma_strings_in_obj_concat(u.drop_first(), v);
        assert(strings_in_obj(u + v) =~= strings_in_obj(u) + strings_in_obj(v));
    }
}

proof fn lemma_strings_single(m: JsonValModel)
    ensures
        strings_in_arr(seq![m]) == strings_in(m),
        forall|k: Seq<char>, mm: JsonValModel| strings_in_obj(seq![(k, mm)]) == strings_in(mm),
{
    assert(seq![m].drop_first() =~= Seq::<JsonValModel>::empty());
    assert(strings_in_arr(Seq::<JsonValModel>::empty()) == Seq::<Seq<char>>::empty());
    assert(seq![m][0] == m);
    assert(strings_in_arr(seq![m]) =~= strings_in(m));
    assert forall|k: Seq<char>, mm: JsonValModel| strings_in_obj(seq![(k, mm)]) == strings_in(
        mm,
    ) by {
        assert(seq![(k, mm)].drop_first() =~= Seq::<(Seq<char>, JsonValModel)>::empty());
        assert(strings_in_obj(Seq::<(Seq<char>, JsonValModel)>::empty())
            == Seq::<Seq<char>>::empty());
        assert(seq![(k, mm)][0] == (k, mm));
        assert(strings_in_obj(seq![(k, mm)]) =~= strings_in(mm));
    }
}

impl JsonStrVisitor {
    /// Walks a JSON value depth first and collects exactly the strings for
    /// which the predicate, applied to the operator's image of the string,
    /// answers true, in visiting order, pushing the original string;
    /// everything collected before stays in place.
    pub fn visit<Pred: Fn(&str) -> bool, Op: Fn(&str) -> String>(
        &mut self,
        value: &JsonValue,
        predicate: &Pred,
        op: &Op,
    )
        requires
            forall|x: &str| #[trigger] call_requires(*predicate, (x,)),
            forall|x: &str| #[trigger] call_requires(*op, (x,)),
        ensures
            old(self).collected@.len() <= final(self).collected@.len(),
            forall|k: int| 0 <= k < old(self).collected@.len() ==> final(self).collected@[k]
                == old(self).collected@[k],
            visit_outcome(
                *predicate,
                *op,
                strings_in(value@),
                str_views(final(self).collected@).skip(old(self).collected@.len() as int),
            ),
        decreases value,
    {
        let ghost oldlen = self.collected@.len() as int;
        match value {
            JsonValue::String(s) => {
                let sa = s.as_str();
                let t = predicate_image(op, sa);
                let ta = t.as_str();
                let ok = apply_pred(predicate, ta);
                if ok {
                    self.collected.push(s.clone());
                }
                proof {
                    let strings = strings_in(value@);
                    assert(strings == seq![s@]);
                    assert(strings.drop_first() =~= Seq::<Seq<char>>::empty());
                    let appended = str_views(self.collected@).skip(oldlen);
                    if ok {
                        let keep = seq![true];
                        assert(self.collected@[oldlen]@ == s@);
                        assert(appended =~= seq![s@]);
                        assert(keep[0]);
                        assert(strings[0] == s@);
                        assert(keep.drop_first() =~= Seq::<bool>::empty());
                        assert(mask(Seq::<Seq<char>>::empty(), Seq::<bool>::empty())
                            == Seq::<Seq<char>>::empty());
                        assert(mask(strings, keep) =~= seq![s@]);
                        assert(approved(*predicate, *op, s@)) by {
                            assert(call_ensures(*op, (sa,), t));
                            assert(call_ensures(*predicate, (ta,), true));
                        }
                        assert(visit_outcome(*predicate, *op, strings, appended));
                    } else {
                        let keep = seq![false];
                        assert(appended =~= Seq::<Seq<char>>::empty());
                        assert(!keep[0]);
                        assert(keep.drop_first() =~= Seq::<bool>::empty());
                        assert(mask(Seq::<Seq<char>>::empty(), Seq::<bool>::empty())
                            == Seq::<Seq<char>>::empty());
                        assert(mask(strings, keep) =~= Seq::<Seq<char>>::empty());
                        assert(rejected(*predicate, *op, s@)) by {
                            assert(call_ensures(*op, (sa,), t));
                            assert(call_ensures(*predicate, (ta,), false));
                        }
                        assert(visit_outcome(*predicate, *op, strings, appended));
                    }
                }
            },
            JsonValue::Array(es) => {
                proof {
                    assert(arr_view(es@).take(0) =~= Seq::<JsonValModel>::empty());
                    let appended = str_views(self.collected@).skip(oldlen);
                    assert(appended =~= Seq::<Seq<char>>::empty());
                    assert(mask(Seq::<Seq<char>>::empty(), Seq::<bool>::empty())
                        == Seq::<Seq<char>>::empty());
                    assert(visit_outcome(
                        *predicate,
                        *op,
                        strings_in_arr(arr_view(es@).take(0)),
                        appended,
                    ));
                }
                let mut i: usize = 0;
                while i < es.len()
                    invariant
                        *value == JsonValue::Array(*es),
                        forall|x: &str| #[trigger] call_requires(*predicate, (x,)),
                        forall|x: &str| #[trigger] call_requires(*op, (x,)),
                        0 <= i <= es@.len(),
                        oldlen == old(self).collected@.len(),
                        oldlen <= self.collected@.len(),
                        forall|k: int| 0 <= k < oldlen ==> self.collected@[k] == old(
                            self,
                        ).collected@[k],
                        visit_outcome(
                            *predicate,
                            *op,
                            strings_in_arr(arr_view(es@).take(i as int)),
                            str_views(self.collected@).skip(oldlen),
                        ),
                    decreases es@.len() - i,
                {
                    let ghost before = self.collected@;
                    proof {
                        let ii = i as int;
                        let ghost t = *value;
                        assert(decreases_to!(t => t->Array_0));
                        assert(decreases_to!(t->Array_0 => t->Array_0@));
                        vstd::seq::axiom_seq_index_decreases(es@, ii);
                        assert(decreases_to!(es@ => es@[ii]));
                    }
                    self.visit(&es[i], predicate, op);
                    proof {
                        let ii = i as int;
                        let av = arr_view(es@);
                        lemma_arr_view_index(es@);
                        let midlen = before.len() as int;
                        let s_pre = strings_in_arr(av.take(ii));
                        let s_cur = strings_in(av[ii]);
                        let a1 = str_views(before).skip(oldlen);
                        let a2 = str_views(self.collected@).skip(midlen);
                        assert(av[ii] == es@[ii]@);
                        lemma_outcome_concat(*predicate, *op, s_pre, s_cur, a1, a2);
                        assert(av.take(ii + 1) =~= av.take(ii) + seq![av[ii]]);
                        lemma_strings_in_arr_concat(av.take(ii), seq![av[ii]]);
                        lemma_strings_single(av[ii]);
                        assert(strings_in_arr(av.take(ii + 1)) == s_pre + s_cur);
                        assert(str_views(self.collected@).skip(oldlen) =~= a1 + a2) by {
                            assert forall|m: int|
                                0 <= m < self.collected@.len() - oldlen implies str_views(
                                self.collected@,
                            ).skip(oldlen)[m] == (a1 + a2)[m] by {
                                if m < midlen - oldlen {
                                    assert(self.collected@[oldlen + m] == before[oldlen + m]);
                                    assert((a1 + a2)[m] == a1[m]);
                                } else {
                                    assert((a1 + a2)[m] == a2[m - (midlen - oldlen)]);
                                }
                            }
                        }
                    }
                    i = i + 1;
                }
                proof {
                    assert(arr_view(es@).take(es@.len() as int) =~= arr_view(es@)) by {
                        lemma_arr_view_index(es@);
                    }
                }
            },
            JsonValue::Object(es) => {
                proof {
                    assert(obj_view(es@).take(0) =~= Seq::<(Seq<char>, JsonValModel)>::empty());
                    let appended = str_views(self.collected@).skip(oldlen);
                    assert(appended =~= Seq::<Seq<char>>::empty());
                    assert(mask(Seq::<Seq<char>>::empty(), Seq::<bool>::empty())
                        == Seq::<Seq<char>>::empty());
                    assert(visit_outcome(
                        *predicate,
                        *op,
                        strings_in_obj(obj_view(es@).take(0)),
                        appended,
                    ));
                }
                let mut i: usize = 0;
                while i < es.len()
                    invariant
                        *value == JsonValue::Object(*es),
                        forall|x: &str| #[trigger] call_requires(*predicate, (x,)),
                        forall|x: &str| #[trigger] call_requires(*op, (x,)),
                        0 <= i <= es@.len(),
                        oldlen == old(self).collected@.len(),
                        oldlen <= self.collected@.len(),
                        forall|k: int| 0 <= k < oldlen ==> self.collected@[k] == old(
                            self,
                        ).collected@[k],
                        visit_outcome(
                            *predicate,
                            *op,
                            strings_in_obj(obj_view(es@).take(i as int)),
                            str_views(self.collected@).skip(oldlen),
                        ),
                    decreases es@.len() - i,
                {
                    let ghost before = self.collected@;
                    proof {
                        let ii = i as int;
                        let ghost t = *value;
                        assert(decreases_to!(t => t->Object_0));
                        assert(decreases_to!(t->Object_0 => t->Object_0@));
                        vstd::seq::axiom_seq_index_decreases(es@, ii);
                        assert(decreases_to!(es@ => es@[ii]));
                        assert(decreases_to!(es@[ii] => es@[ii].1));
                    }
                    self.visit(&es[i].1, predicate, op);
                    proof {
                        let ii = i as int;
                        let ov = obj_view(es@);
                        lemma_obj_view_index(es@);
                        let midlen = before.len() as int;
                        let s_pre = strings_in_obj(ov.take(ii));
                        let s_cur = strings_in(ov[ii].1);
                        let a1 = str_views(before).skip(oldlen);
                        let a2 = str_views(self.collected@).skip(midlen);
                        assert(ov[ii] == (es@[ii].0@, es@[ii].1@));
                        assert(ov[ii].1 == es@[ii].1@);
                        lemma_outcome_concat(*predicate, *op, s_pre, s_cur, a1, a2);
                        assert(ov.take(ii + 1) =~= ov.take(ii) + seq![ov[ii]]);
                        lemma_strings_in_obj_concat(ov.take(ii), seq![ov[ii]]);
                        lemma_strings_single(ov[ii].1);
                        assert(strings_in_obj(seq![ov[ii]]) == strings_in(ov[ii].1)) by {
                            assert(seq![ov[ii]][0] == (ov[ii].0, ov[ii].1));
                        }
                        assert(strings_in_obj(ov.take(ii + 1)) == s_pre + s_cur);
                        assert(str_views(self.collected@).skip(oldlen) =~= a1 + a2) by {
                            assert forall|m: int|
                                0 <= m < self.collected@.len() - oldlen implies str_views(
                                self.collected@,
                            ).skip(oldlen)[m] == (a1 + a2)[m] by {
                                if m < midlen - oldlen {
                                    assert(self.collected@[oldlen + m] == before[oldlen + m]);
                                    assert((a1 + a2)[m] == a1[m]);
                                } else {
                                    assert((a1 + a2)[m] == a2[m - (midlen - oldlen)]);
                                }
                            }
                        }
                    }
                    i = i + 1;
                }
                proof {
                    assert(obj_view(es@).take(es@.len() as int) =~= obj_view(es@)) by {
                        lemma_obj_view_index(es@);
                    }
                }
            },
            _ => {
                proof {
                    let strings = strings_in(value@);
                    assert(strings == Seq::<Seq<char>>::empty());
                    let appended = str_views(self.collected@).skip(oldlen);
                    assert(appended =~= Seq::<Seq<char>>::empty());
                    assert(mask(strings, Seq::<bool>::empty()) == Seq::<Seq<char>>::empty());
                    assert(visit_outcome(*predicate, *op, strings, appended));
                }
            },
        }
    }
}

proof fn lemma_outcome_concat<Pred: Fn(&str) -> bool, Op: Fn(&str) -> String>(
    predicate: Pred,
    op: Op,
    s1: Seq<Seq<char>>,
    s2: Seq<Seq<char>>,
    a1: Seq<Seq<char>>,
    a2: Seq<Seq<char>>,
)
    requires
        visit_outcome(predicate, op, s1, a1),
        visit_outcome(predicate, op, s2, a2),
    ensures
        visit_outcome(predicate, op, s1 + s2, a1 + a2),
{
    let k1 = choose|keep: Seq<bool>|
        keep.len() == s1.len() && a1 == #[trigger] mask(s1, keep) && (forall|n: int|
            0 <= n < keep.len() && keep[n] ==> approved(predicate, op, s1[n])) && (forall|n: int|
            0 <= n < keep.len() && !keep[n] ==> rejected(predicate, op, s1[n]));
    let k2 = choose|keep: Seq<bool>|
        keep.len() == s2.len() && a2 == #[trigger] mask(s2, keep) && (forall|n: int|
            0 <= n < keep.len() && keep[n] ==> approved(predicate, op, s2[n])) && (forall|n: int|
            0 <= n < keep.len() && !keep[n] ==> rejected(predicate, op, s2[n]));
    let kk = k1 + k2;
    lemma_mask_concat(s1, s2, k1, k2);
    assert(kk.len() == (s1 + s2).len());
    assert(a1 + a2 == mask(s1 + s2, kk));
    assert forall|n: int| 0 <= n < kk.len() && kk[n] implies approved(
        predicate,
        op,
        (s1 + s2)[n],
    ) by {
        if n < s1.len() {
            assert(kk[n] == k1[n]);
            assert((s1 + s2)[n] == s1[n]);
        } else {
            assert(kk[n] == k2[n - s1.len()]);
            assert((s1 + s2)[n] == s2[n - s1.len()]);
        }
    }
    assert forall|n: int| 0 <= n < kk.len() && !kk[n] implies rejected(
        predicate,
        op,
        (s1 + s2)[n],
    ) by {
        if n < s1.len() {
            assert(kk[n] == k1[n]);
            assert((s1 + s2)[n] == s1[n]);
        } else {
            assert(kk[n] == k2[n - s1.len()]);
            assert((s1 + s2)[n] == s2[n - s1.len()]);
        }
    }
    assert(visit_outcome(predicate, op, s1 + s2, a1 + a2));
}

fn predicate_image<Op: Fn(&str) -> String>(op: &Op, x: &str) -> (r: String)
    requires
        call_requires(*op, (x,)),
    ensures
        call_ensures(*op, (x,), r),
{
    op(x)
}

fn apply_pred<Pred: Fn(&str) -> bool>(predicate: &Pred, x: &str) -> (r: bool)
    requires
        call_requires(*predicate, (x,)),
    ensures
        call_ensures(*predicate, (x,), r),
{
    predicate(x)
}

proof fn lemma_arr_view_index(es: Seq<JsonValue>)
    ensures
        arr_view(es).len() == es.len(),
        forall|k: int| 0 <= k < es.len() ==> #[trigger] arr_view(es)[k] == es[k]@,
    decreases es,
{
    if es.len() > 0 {
        lemma_arr_view_index(es.drop_first());
        assert(arr_view(es) == seq![es[0]@] + arr_view(es.drop_first()));
        assert forall|k: int| 0 <= k < es.len() implies #[trigger] arr_view(es)[k] == es[k]@ by {
            if k > 0 {
                assert(arr_view(es)[k] == arr_view(es.drop_first())[k - 1]);
                assert(es.drop_first()[k - 1] == es[k]);
            }
        }
    }
}

proof fn lemma_obj_view_index(es: Seq<(String, JsonValue)>)
    ensures
        obj_view(es).len() == es.len(),
        forall|k: int| 0 <= k < es.len() ==> #[trigger] obj_view(es)[k] == (es[k].0@, es[k].1@),
    decreases es,
{
    if es.len() > 0 {
        lemma_obj_view_index(es.drop_first());
        assert(obj_view(es) == seq![(es[0].0@, es[0].1@)] + obj_view(es.drop_first()));
        assert forall|k: int| 0 <= k < es.len() implies #[trigger] obj_view(es)[k] == (
            es[k].0@,
            es[k].1@,
        ) by {
            if k > 0 {
                assert(obj_view(es)[k] == obj_view(es.drop_first())[k - 1]);
                assert(es.drop_first()[k - 1] == es[k]);
            }
        }
    }
}

} // verus!
