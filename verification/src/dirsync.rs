//! The recursive one-directional directory merge.
//!
//! Source entries are added to or updated in the destination; destination
//! entries absent from the source are left untouched, never pruned.  A file
//! pair is updated through the digest-gated decision; directory pairs merge
//! recursively; a fresh source entry is copied whole.  A clash of entry
//! kinds — a source file over a destination directory, or a source directory
//! with children over a destination file — aborts the merge, as the
//! corresponding disk operation would.

use vstd::prelude::*;
use crate::hashing::ContentHasher;
use crate::tree::Entry;
use crate::tree::Node;
use crate::tree::dir_dir_at;
use crate::tree::dir_file_at;
use crate::tree::dir_wf;
use crate::tree::entries_height;
use crate::tree::has_name;
use crate::tree::lookup;
use crate::tree::node_dir_at;
use crate::tree::node_file_at;
use crate::tree::node_height;
use crate::tree::node_wf;
use crate::tree::find_entry;
use crate::tree::lemma_dir_wf_push;
use crate::tree::lemma_has_name_index;
use crate::tree::lemma_height_index;
use crate::tree::lemma_index_has_name;
use crate::tree::lemma_lookup_height;
use crate::tree::lemma_lookup_index;
use crate::tree::lemma_lookup_node_wf;
use crate::tree::lemma_lookup_push;
use crate::tree::lemma_wf_distinct;
use crate::filesync::copied_bytes;
use crate::hashing::digest_of_bytes;

verus! {

/// The merge aborted: a source file met a destination directory of the same
/// name, or a source directory with children met a destination file.
#[derive(Debug, PartialEq, Eq)]
pub enum MergeError {
    KindClash,
}

/// The file content a path holds after the merge, from what the two sides
/// held there before: an untouched destination where the source has nothing,
/// a fresh copy where the destination had nothing, and on a pair the
/// destination's own bytes when the digests agree, the source's otherwise.
pub open spec fn merged_file_content<H: ContentHasher>(
    source: Option<Seq<u8>>,
    dest: Option<Seq<u8>>,
) -> Option<Seq<u8>> {
    match source {
        None => dest,
        Some(sc) => match dest {
            None => Some(sc),
            Some(dc) => if H::digest_spec(dc) == H::digest_spec(sc) {
                Some(dc)
            } else {
                Some(sc)
            },
        },
    }
}

/// The file reached by `path` under an optional node.
pub open spec fn opt_file_at(node: Option<Node>, path: Seq<Seq<u8>>) -> Option<Seq<u8>> {
    match node {
        Some(n) => node_file_at(n, path),
        None => None,
    }
}

/// Whether `path` reaches a directory under an optional node.
pub open spec fn opt_dir_at(node: Option<Node>, path: Seq<Seq<u8>>) -> bool {
    match node {
        Some(n) => node_dir_at(n, path),
        None => false,
    }
}

/// The merge policy, stated over every path below a source node, a
/// destination node and the node that replaces the destination: each file
/// obeys `merged_file_content`, and a directory stands where the destination
/// had one, or where the source had one and no destination file stood in
/// its way.
pub open spec fn merged_below<H: ContentHasher>(
    source: Option<Node>,
    dest: Option<Node>,
    merged: Option<Node>,
) -> bool {
    &&& forall|path: Seq<Seq<u8>>|
        #[trigger] opt_file_at(merged, path) == merged_file_content::<H>(
            opt_file_at(source, path),
            opt_file_at(dest, path),
        )
    &&& forall|path: Seq<Seq<u8>>|
        #[trigger] opt_dir_at(merged, path) == (opt_dir_at(dest, path) || (opt_dir_at(
            source,
            path,
        ) && opt_file_at(dest, path) is None))
}

/// The merge policy over whole directories, path by path.
pub open spec fn merged_dirs<H: ContentHasher>(
    source: Seq<Entry>,
    dest: Seq<Entry>,
    merged: Seq<Entry>,
) -> bool {
    &&& forall|path: Seq<Seq<u8>>|
        #[trigger] dir_file_at(merged, path) == merged_file_content::<H>(
            dir_file_at(source, path),
            dir_file_at(dest, path),
        )
    &&& forall|path: Seq<Seq<u8>>|
        #[trigger] dir_dir_at(merged, path) == (dir_dir_at(dest, path) || (dir_dir_at(
            source,
            path,
        ) && dir_file_at(dest, path) is None))
}

/// Whether merging `source` over `dest` runs into a clash of entry kinds
/// anywhere: the write that the merge would issue there must fail.
pub open spec fn merge_conflict(source: Seq<Entry>, dest: Seq<Entry>) -> bool
    decreases entries_height(source), dest.len(),
    via merge_conflict_decreases
{
    if dest.len() == 0 {
        false
    } else {
        let clash = match lookup(source, dest[0].name@) {
            None => false,
            Some(found) => match found {
                Node::File { .. } => dest[0].node is Dir,
                Node::Dir { children } => match dest[0].node {
                    Node::File { .. } => children@.len() > 0,
                    Node::Dir { children: dest_children } => merge_conflict(
                        children@,
                        dest_children@,
                    ),
                },
            },
        };
        clash || merge_conflict(source, dest.drop_first())
    }
}

#[via_fn]
proof fn merge_conflict_decreases(source: Seq<Entry>, dest: Seq<Entry>) {
    if dest.len() > 0 {
        lemma_lookup_height(source, dest[0].name@);
    }
}

/// Where the source has nothing, the untouched destination obeys the merge
/// policy.
pub proof fn lemma_merged_below_untouched<H: ContentHasher>(dest: Option<Node>)
    ensures
        merged_below::<H>(None, dest, dest),
{
}

/// A file pair with agreeing digests keeps the destination file.
pub proof fn lemma_merged_below_keep<H: ContentHasher>(source: Node, dest: Node)
    requires
        source is File,
        dest is File,
        H::digest_spec(dest->content@) == H::digest_spec(source->content@),
    ensures
        merged_below::<H>(Some(source), Some(dest), Some(dest)),
{
}

/// A file pair with differing digests replaces the destination's bytes by
/// the source's.
pub proof fn lemma_merged_below_replace<H: ContentHasher>(source: Node, dest: Node, merged: Node)
    requires
        source is File,
        dest is File,
        merged is File,
        H::digest_spec(dest->content@) != H::digest_spec(source->content@),
        merged->content@ == source->content@,
    ensures
        merged_below::<H>(Some(source), Some(dest), Some(merged)),
{
}

/// A source file copied over an absent destination.
pub proof fn lemma_merged_below_fresh_file<H: ContentHasher>(source: Node, merged: Node)
    requires
        source is File,
        merged is File,
        merged->content@ == source->content@,
    ensures
        merged_below::<H>(Some(source), None, Some(merged)),
{
}

/// A childless source directory over a destination file changes nothing:
/// there is no child to write, so the file stays.
pub proof fn lemma_merged_below_empty_dir<H: ContentHasher>(source: Node, dest: Node)
    requires
        source is Dir,
        source->children@.len() == 0,
        dest is File,
    ensures
        merged_below::<H>(Some(source), Some(dest), Some(dest)),
{
    assert forall|path: Seq<Seq<u8>>|
        #[trigger] opt_file_at(Some(dest), path) == merged_file_content::<H>(
            opt_file_at(Some(source), path),
            opt_file_at(Some(dest), path),
        ) by {
        if path.len() > 0 {
            assert(lookup(source->children@, path[0]) is None);
        }
    }
    assert forall|path: Seq<Seq<u8>>|
        #[trigger] opt_dir_at(Some(dest), path) == (opt_dir_at(Some(dest), path) || (opt_dir_at(
            Some(source),
            path,
        ) && opt_file_at(Some(dest), path) is None)) by {
        if path.len() > 0 {
            assert(lookup(source->children@, path[0]) is None);
        }
    }
}

/// A merged directory pair obeys the policy, seen as nodes.
pub proof fn lemma_merged_below_dir<H: ContentHasher>(source: Node, dest: Node, merged: Node)
    requires
        source is Dir,
        dest is Dir,
        merged is Dir,
        merged_dirs::<H>(source->children@, dest->children@, merged->children@),
    ensures
        merged_below::<H>(Some(source), Some(dest), Some(merged)),
{
    assert forall|path: Seq<Seq<u8>>|
        #[trigger] opt_file_at(Some(merged), path) == merged_file_content::<H>(
            opt_file_at(Some(source), path),
            opt_file_at(Some(dest), path),
        ) by {
        assert(dir_file_at(merged->children@, path) == merged_file_content::<H>(
            dir_file_at(source->children@, path),
            dir_file_at(dest->children@, path),
        ));
    }
    assert forall|path: Seq<Seq<u8>>|
        #[trigger] opt_dir_at(Some(merged), path) == (opt_dir_at(Some(dest), path) || (opt_dir_at(
            Some(source),
            path,
        ) && opt_file_at(Some(dest), path) is None)) by {
        assert(dir_dir_at(merged->children@, path) == (dir_dir_at(dest->children@, path)
            || (dir_dir_at(source->children@, path) && dir_file_at(
            dest->children@,
            path,
        ) is None)));
        assert(dir_file_at(merged->children@, path) == merged_file_content::<H>(
            dir_file_at(source->children@, path),
            dir_file_at(dest->children@, path),
        ));
    }
}

/// A source directory merged against nothing is a whole fresh copy, and it
/// obeys the policy against an absent destination.
pub proof fn lemma_merged_below_fresh_dir<H: ContentHasher>(source: Node, merged: Node)
    requires
        source is Dir,
        merged is Dir,
        merged_dirs::<H>(source->children@, Seq::<Entry>::empty(), merged->children@),
    ensures
        merged_below::<H>(Some(source), None, Some(merged)),
{
    assert forall|path: Seq<Seq<u8>>|
        #[trigger] opt_file_at(Some(merged), path) == merged_file_content::<H>(
            opt_file_at(Some(source), path),
            opt_file_at(None, path),
        ) by {
        if path.len() > 0 {
            assert(lookup(Seq::<Entry>::empty(), path[0]) is None);
            assert(dir_file_at(Seq::<Entry>::empty(), path) is None);
        }
        assert(dir_file_at(merged->children@, path) == merged_file_content::<H>(
            dir_file_at(source->children@, path),
            dir_file_at(Seq::<Entry>::empty(), path),
        ));
    }
    assert forall|path: Seq<Seq<u8>>|
        #[trigger] opt_dir_at(Some(merged), path) == (opt_dir_at(None, path) || (opt_dir_at(
            Some(source),
            path,
        ) && opt_file_at(None, path) is None)) by {
        if path.len() > 0 {
            assert(lookup(Seq::<Entry>::empty(), path[0]) is None);
            assert(dir_file_at(Seq::<Entry>::empty(), path) is None);
            assert(!dir_dir_at(Seq::<Entry>::empty(), path));
        }
        assert(dir_dir_at(merged->children@, path) == (dir_dir_at(Seq::<Entry>::empty(), path)
            || (dir_dir_at(source->children@, path) && dir_file_at(
            Seq::<Entry>::empty(),
            path,
        ) is None)));
    }
}

/// Name-by-name policy implies the path-by-path policy over whole
/// directories.
pub proof fn lemma_pointwise_merge<H: ContentHasher>(
    source: Seq<Entry>,
    dest: Seq<Entry>,
    merged: Seq<Entry>,
)
    requires
        forall|name: Seq<u8>|
            #[trigger] merged_below::<H>(
                lookup(source, name),
                lookup(dest, name),
                lookup(merged, name),
            ),
    ensures
        merged_dirs::<H>(source, dest, merged),
{
    assert forall|path: Seq<Seq<u8>>|
        #[trigger] dir_file_at(merged, path) == merged_file_content::<H>(
            dir_file_at(source, path),
            dir_file_at(dest, path),
        ) by {
        if path.len() > 0 {
            let name = path[0];
            let rest = path.drop_first();
            assert(merged_below::<H>(lookup(source, name), lookup(dest, name), lookup(merged, name)));
            assert(opt_file_at(lookup(merged, name), rest) == merged_file_content::<H>(
                opt_file_at(lookup(source, name), rest),
                opt_file_at(lookup(dest, name), rest),
            ));
        }
    }
    assert forall|path: Seq<Seq<u8>>|
        #[trigger] dir_dir_at(merged, path) == (dir_dir_at(dest, path) || (dir_dir_at(
            source,
            path,
        ) && dir_file_at(dest, path) is None)) by {
        if path.len() > 0 {
            let name = path[0];
            let rest = path.drop_first();
            assert(merged_below::<H>(lookup(source, name), lookup(dest, name), lookup(merged, name)));
            assert(opt_dir_at(lookup(merged, name), rest) == (opt_dir_at(lookup(dest, name), rest)
                || (opt_dir_at(lookup(source, name), rest) && opt_file_at(
                lookup(dest, name),
                rest,
            ) is None)));
            assert(opt_file_at(lookup(merged, name), rest) == merged_file_content::<H>(
                opt_file_at(lookup(source, name), rest),
                opt_file_at(lookup(dest, name), rest),
            ));
        }
    }
}

/// Law: recursive completeness.  Every file reachable at any depth under the
/// source is present at the mirrored path after the merge, with content the
/// digest cannot tell apart from the source's.
pub proof fn lemma_recursive_completeness<H: ContentHasher>(
    source: Seq<Entry>,
    dest: Seq<Entry>,
    merged: Seq<Entry>,
    path: Seq<Seq<u8>>,
)
    requires
        merged_dirs::<H>(source, dest, merged),
        dir_file_at(source, path) is Some,
    ensures
        dir_file_at(merged, path) is Some,
        H::digest_spec(dir_file_at(merged, path)->0) == H::digest_spec(
            dir_file_at(source, path)->0,
        ),
{
    assert(dir_file_at(merged, path) == merged_file_content::<H>(
        dir_file_at(source, path),
        dir_file_at(dest, path),
    ));
}

/// The content of an optional node that is a file.
pub open spec fn file_content_of(node: Option<Node>) -> Option<Seq<u8>> {
    match node {
        Some(Node::File { content }) => Some(content@),
        _ => None,
    }
}

/// Whether a source/destination pair of nodes under one name calls for the
/// destination file to be kept: both are files and their digests agree.
pub open spec fn keeps_dest_file<H: ContentHasher>(
    source: Option<Node>,
    dest: Option<Node>,
) -> bool {
    &&& file_content_of(source) is Some
    &&& file_content_of(dest) is Some
    &&& H::digest_spec(file_content_of(dest)->0) == H::digest_spec(file_content_of(source)->0)
}

/// Merge the source directory into the destination directory.
///
/// Every path below the result obeys the merge policy (`merged_dirs`):
/// entries only in the destination are left untouched — the very values they
/// were; a file pair whose digests agree keeps the destination entry, one
/// whose digests differ takes the source bytes; fresh source entries are
/// copied whole; directory pairs merge recursively.  The merge fails exactly
/// when a clash of entry kinds (`merge_conflict`) stands anywhere in the
/// pair of trees.
#[verifier::rlimit(50)]
pub fn merge_dir<H: ContentHasher>(source: &Vec<Entry>, dest: Vec<Entry>) -> (result: Result<
    Vec<Entry>,
    MergeError,
>)
    requires
        dir_wf(source@),
        dir_wf(dest@),
    ensures
        result matches Ok(merged) ==> {
            &&& dir_wf(merged@)
            &&& forall|name: Seq<u8>|
                #[trigger] merged_below::<H>(
                    lookup(source@, name),
                    lookup(dest@, name),
                    lookup(merged@, name),
                )
            &&& merged_dirs::<H>(source@, dest@, merged@)
            &&& forall|name: Seq<u8>| #![trigger lookup(merged@, name)]
                lookup(source@, name) is None ==> lookup(merged@, name) == lookup(dest@, name)
            &&& forall|name: Seq<u8>| #![trigger lookup(merged@, name)]
                keeps_dest_file::<H>(lookup(source@, name), lookup(dest@, name)) ==> lookup(
                    merged@,
                    name,
                ) == lookup(dest@, name)
            &&& source@.len() == 0 ==> merged@ == dest@
        },
        result is Err <==> merge_conflict(source@, dest@),
    decreases entries_height(source@),
{
    let ghost dst_s = dest@;
    let mut rest = dest;
    let mut out: Vec<Entry> = Vec::new();
    proof {
        assert(dst_s.skip(0) =~= dst_s);
    }
    while rest.len() > 0
        invariant
            dst_s == dest@,
            dir_wf(source@),
            dir_wf(dst_s),
            dir_wf(out@),
            dir_wf(rest@),
            out@.len() + rest@.len() == dst_s.len(),
            rest@ == dst_s.skip(out@.len() as int),
            forall|i: int| #![trigger out@[i]]
                0 <= i < out@.len() ==> out@[i].name@ == dst_s[i].name@,
            forall|i: int| #![trigger out@[i]]
                0 <= i < out@.len() ==> merged_below::<H>(
                    lookup(source@, dst_s[i].name@),
                    Some(dst_s[i].node),
                    Some(out@[i].node),
                ),
            forall|i: int| #![trigger out@[i]]
                0 <= i < out@.len() && lookup(source@, dst_s[i].name@) is None ==> out@[i]
                    == dst_s[i],
            forall|i: int| #![trigger out@[i]]
                0 <= i < out@.len() && keeps_dest_file::<H>(
                    lookup(source@, dst_s[i].name@),
                    Some(dst_s[i].node),
                ) ==> out@[i] == dst_s[i],
            merge_conflict(source@, dst_s) == merge_conflict(source@, rest@),
        decreases rest@.len(),
    {
        let ghost k = out@.len() as int;
        let ghost rest_before = rest@;
        proof {
            assert(rest_before[0] == dst_s[k]);
            assert(rest_before.remove(0) =~= rest_before.drop_first());
            assert(rest_before.drop_first() =~= dst_s.skip(k + 1));
        }
        let d = rest.remove(0);
        let ghost d_snap = d;
        let found = find_entry(source, &d.name);
        proof {
            // The incoming name is fresh in `out`: `out` bears the names of
            // the processed prefix, and the destination's names are unique.
            if has_name(out@, d_snap.name@) {
                lemma_has_name_index(out@, d_snap.name@);
                let i = choose|i: int|
                    0 <= i < out@.len() && #[trigger] out@[i].name@ == d_snap.name@;
                lemma_wf_distinct(dst_s, i, k);
                assert(false);
            }
        }
        match found {
            None => {
                proof {
                    lemma_merged_below_untouched::<H>(Some(d_snap.node));
                    lemma_dir_wf_push(out@, d_snap);
                    assert(merge_conflict(source@, rest_before) == merge_conflict(
                        source@,
                        rest_before.drop_first(),
                    ));
                }
                out.push(d);
            },
            Some(j) => {
                match &source[j].node {
                    Node::File { content: s_content } => {
                        match &d.node {
                            Node::File { content: d_content } => {
                                proof {
                                    assert(source@[j as int].node->content == *s_content);
                                    assert(d_snap.node->content == *d_content);
                                }
                                let s_digest = digest_of_bytes::<H>(s_content.as_slice());
                                let d_digest = digest_of_bytes::<H>(d_content.as_slice());
                                if d_digest == s_digest {
                                    proof {
                                        lemma_merged_below_keep::<H>(
                                            source@[j as int].node,
                                            d_snap.node,
                                        );
                                        lemma_dir_wf_push(out@, d_snap);
                                        assert(merge_conflict(source@, rest_before)
                                            == merge_conflict(
                                            source@,
                                            rest_before.drop_first(),
                                        ));
                                    }
                                    out.push(d);
                                } else {
                                    let fresh = Entry {
                                        name: d.name,
                                        node: Node::File {
                                            content: copied_bytes(s_content.as_slice()),
                                        },
                                    };
                                    proof {
                                        lemma_merged_below_replace::<H>(
                                            source@[j as int].node,
                                            d_snap.node,
                                            fresh.node,
                                        );
                                        lemma_dir_wf_push(out@, fresh);
                                        assert(merge_conflict(source@, rest_before)
                                            == merge_conflict(
                                            source@,
                                            rest_before.drop_first(),
                                        ));
                                    }
                                    out.push(fresh);
                                }
                            },
                            Node::Dir { .. } => {
                                proof {
                                    assert(merge_conflict(source@, rest_before));
                                }
                                return Err(MergeError::KindClash);
                            },
                        }
                    },
                    Node::Dir { children: s_kids } => {
                        proof {
                            lemma_lookup_node_wf(source@, d_snap.name@);
                            lemma_lookup_height(source@, d_snap.name@);
                        }
                        match d.node {
                            Node::File { content: d_content } => {
                                if s_kids.len() > 0 {
                                    proof {
                                        assert(merge_conflict(source@, rest_before));
                                    }
                                    return Err(MergeError::KindClash);
                                } else {
                                    let kept = Entry {
                                        name: d.name,
                                        node: Node::File { content: d_content },
                                    };
                                    proof {
                                        assert(kept == d_snap);
                                        lemma_merged_below_empty_dir::<H>(
                                            source@[j as int].node,
                                            d_snap.node,
                                        );
                                        lemma_dir_wf_push(out@, kept);
                                        assert(merge_conflict(source@, rest_before)
                                            == merge_conflict(
                                            source@,
                                            rest_before.drop_first(),
                                        ));
                                    }
                                    out.push(kept);
                                }
                            },
                            Node::Dir { children: d_kids } => {
                                proof {
                                    assert(node_wf(d_snap.node));
                                    assert(dir_wf(d_kids@));
                                    assert(node_wf(source@[j as int].node));
                                    assert(dir_wf(s_kids@));
                                    assert(node_height(source@[j as int].node) == 1
                                        + entries_height(s_kids@));
                                }
                                match merge_dir::<H>(s_kids, d_kids) {
                                    Ok(m) => {
                                        let merged_entry = Entry {
                                            name: d.name,
                                            node: Node::Dir { children: m },
                                        };
                                        proof {
                                            lemma_merged_below_dir::<H>(
                                                source@[j as int].node,
                                                d_snap.node,
                                                merged_entry.node,
                                            );
                                            lemma_dir_wf_push(out@, merged_entry);
                                            assert(merge_conflict(source@, rest_before)
                                                == merge_conflict(
                                                source@,
                                                rest_before.drop_first(),
                                            ));
                                        }
                                        out.push(merged_entry);
                                    },
                                    Err(clash) => {
                                        proof {
                                            assert(merge_conflict(source@, rest_before));
                                        }
                                        return Err(clash);
                                    },
                                }
                            },
                        }
                    },
                }
            },
        }
    }
    proof {
        assert(rest@ =~= Seq::<Entry>::empty());
        assert(!merge_conflict(source@, rest@));
        assert(out@.len() == dst_s.len());
        if source@.len() == 0 {
            assert(forall|i: int| #![trigger out@[i]]
                0 <= i < out@.len() ==> lookup(source@, dst_s[i].name@) is None && out@[i]
                    == dst_s[i]);
            assert(out@ =~= dst_s);
        }
    }
    let ghost mid = out@;
    proof {
        // Turn the index-by-index picture of the first pass into a
        // name-by-name one.
        assert forall|name: Seq<u8>| #![trigger lookup(mid, name)] has_name(dst_s, name) implies {
            &&& lookup(mid, name) is Some
            &&& merged_below::<H>(lookup(source@, name), lookup(dst_s, name), lookup(mid, name))
            &&& lookup(source@, name) is None ==> lookup(mid, name) == lookup(dst_s, name)
            &&& keeps_dest_file::<H>(lookup(source@, name), lookup(dst_s, name)) ==> lookup(
                mid,
                name,
            ) == lookup(dst_s, name)
        } by {
            lemma_has_name_index(dst_s, name);
            let i = choose|i: int| 0 <= i < dst_s.len() && #[trigger] dst_s[i].name@ == name;
            lemma_lookup_index(dst_s, i);
            lemma_lookup_index(mid, i);
        }
        assert forall|name: Seq<u8>| #![trigger lookup(mid, name)]
            !has_name(dst_s, name) implies lookup(mid, name) is None by {
            if lookup(mid, name) is Some {
                lemma_has_name_index(mid, name);
                let i = choose|i: int| 0 <= i < mid.len() && #[trigger] mid[i].name@ == name;
                lemma_index_has_name(dst_s, i);
            }
        }
        assert(source@.take(0) =~= Seq::<Entry>::empty());
    }
    let mut i: usize = 0;
    while i < source.len()
        invariant
            i <= source@.len(),
            dir_wf(source@),
            dir_wf(dst_s),
            dir_wf(out@),
            forall|name: Seq<u8>| #![trigger lookup(mid, name)]
                has_name(dst_s, name) ==> {
                    &&& lookup(mid, name) is Some
                    &&& merged_below::<H>(
                        lookup(source@, name),
                        lookup(dst_s, name),
                        lookup(mid, name),
                    )
                    &&& lookup(source@, name) is None ==> lookup(mid, name) == lookup(dst_s, name)
                    &&& keeps_dest_file::<H>(lookup(source@, name), lookup(dst_s, name))
                        ==> lookup(mid, name) == lookup(dst_s, name)
                },
            forall|name: Seq<u8>| #![trigger lookup(mid, name)]
                !has_name(dst_s, name) ==> lookup(mid, name) is None,
            forall|name: Seq<u8>| #![trigger lookup(out@, name)]
                has_name(dst_s, name) ==> lookup(out@, name) == lookup(mid, name),
            forall|name: Seq<u8>| #![trigger lookup(out@, name)]
                !has_name(dst_s, name) && has_name(source@.take(i as int), name) ==> lookup(
                    out@,
                    name,
                ) is Some && merged_below::<H>(lookup(source@, name), None, lookup(out@, name)),
            forall|name: Seq<u8>| #![trigger lookup(out@, name)]
                !has_name(dst_s, name) && !has_name(source@.take(i as int), name) ==> lookup(
                    out@,
                    name,
                ) is None,
            source@.len() == 0 ==> out@ == dst_s,
        decreases source@.len() - i,
    {
        let ghost out_before = out@;
        let ghost n0 = source@[i as int].name@;
        proof {
            assert(source@.take(i as int + 1) =~= source@.take(i as int).push(source@[i as int]));
            assert forall|name: Seq<u8>| #[trigger]
                has_name(source@.take(i as int + 1), name) == (has_name(
                    source@.take(i as int),
                    name,
                ) || n0 == name) by {
                lemma_lookup_push(source@.take(i as int), source@[i as int], name);
            }
        }
        let found = find_entry(&out, &source[i].name);
        match found {
            Some(_) => {
                proof {
                    if !has_name(dst_s, n0) {
                        if has_name(source@.take(i as int), n0) {
                            lemma_has_name_index(source@.take(i as int), n0);
                            let j = choose|j: int|
                                0 <= j < source@.take(i as int).len() && #[trigger] source@.take(
                                    i as int,
                                )[j].name@ == n0;
                            lemma_wf_distinct(source@, j, i as int);
                        }
                        assert(false);
                    }
                }
            },
            None => {
                proof {
                    lemma_lookup_index(source@, i as int);
                    assert(!has_name(dst_s, n0));
                }
                match &source[i].node {
                    Node::File { content } => {
                        let fresh = Entry {
                            name: copied_bytes(source[i].name.as_slice()),
                            node: Node::File { content: copied_bytes(content.as_slice()) },
                        };
                        proof {
                            lemma_merged_below_fresh_file::<H>(source@[i as int].node, fresh.node);
                            lemma_dir_wf_push(out_before, fresh);
                            assert forall|name: Seq<u8>| #![trigger lookup(out_before.push(fresh), name)]
                                lookup(out_before.push(fresh), name) == (if lookup(
                                    out_before,
                                    name,
                                ) is Some {
                                    lookup(out_before, name)
                                } else if n0 == name {
                                    Some(fresh.node)
                                } else {
                                    None
                                }) by {
                                lemma_lookup_push(out_before, fresh, name);
                            }
                        }
                        out.push(fresh);
                    },
                    Node::Dir { children } => {
                        proof {
                            lemma_lookup_node_wf(source@, n0);
                            lemma_height_index(source@, i as int);
                        }
                        let empty_dir: Vec<Entry> = Vec::new();
                        match merge_dir::<H>(children, empty_dir) {
                            Ok(m) => {
                                let fresh = Entry {
                                    name: copied_bytes(source[i].name.as_slice()),
                                    node: Node::Dir { children: m },
                                };
                                proof {
                                    lemma_merged_below_fresh_dir::<H>(
                                        source@[i as int].node,
                                        fresh.node,
                                    );
                                    lemma_dir_wf_push(out_before, fresh);
                                    assert forall|name: Seq<u8>| #![trigger lookup(out_before.push(fresh), name)]
                                        lookup(out_before.push(fresh), name) == (if lookup(
                                            out_before,
                                            name,
                                        ) is Some {
                                            lookup(out_before, name)
                                        } else if n0 == name {
                                            Some(fresh.node)
                                        } else {
                                            None
                                        }) by {
                                        lemma_lookup_push(out_before, fresh, name);
                                    }
                                }
                                out.push(fresh);
                            },
                            Err(clash) => {
                                proof {
                                    assert(!merge_conflict(children@, Seq::<Entry>::empty()));
                                    assert(false);
                                }
                                return Err(clash);
                            },
                        }
                    },
                }
            },
        }
        i = i + 1;
    }
    proof {
        assert(source@.take(source@.len() as int) =~= source@);
        assert forall|name: Seq<u8>| #[trigger]
            merged_below::<H>(
                lookup(source@, name),
                lookup(dst_s, name),
                lookup(out@, name),
            ) by {
            if !has_name(dst_s, name) && !has_name(source@, name) {
                lemma_merged_below_untouched::<H>(None);
            }
        }
        lemma_pointwise_merge::<H>(source@, dst_s, out@);
    }
    Ok(out)
}

} // verus!
