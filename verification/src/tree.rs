//! An in-memory picture of a directory tree.
//!
//! A directory is a list of named entries; an entry holds either a file's
//! bytes or a nested directory.  Names within one directory are unique.
//! Specification-level access is by name (`lookup`) and by path
//! (`dir_file_at`, `dir_dir_at`), which is what the merge contracts are
//! phrased over, so nothing depends on the order in which entries are listed.

use vstd::prelude::*;

verus! {

/// A named entry of a directory.
#[derive(Debug)]
pub struct Entry {
    pub name: Vec<u8>,
    pub node: Node,
}

/// What an entry holds: a regular file's content, or a subdirectory.
#[derive(Debug)]
pub enum Node {
    File { content: Vec<u8> },
    Dir { children: Vec<Entry> },
}

/// The height of a node: how much tree hangs below it.
pub open spec fn node_height(node: Node) -> nat
    decreases node,
{
    match node {
        Node::File { .. } => 1,
        Node::Dir { children } => 1 + entries_height(children@),
    }
}

/// The summed height of a directory's entries.
pub open spec fn entries_height(entries: Seq<Entry>) -> nat
    decreases entries,
{
    if entries.len() == 0 {
        0
    } else {
        node_height(entries[0].node) + entries_height(entries.drop_first())
    }
}

/// The node filed under `name`, if any; the first match counts.
pub open spec fn lookup(entries: Seq<Entry>, name: Seq<u8>) -> Option<Node>
    decreases entries.len(),
{
    if entries.len() == 0 {
        None
    } else if entries[0].name@ == name {
        Some(entries[0].node)
    } else {
        lookup(entries.drop_first(), name)
    }
}

/// Whether the directory has an entry under `name`.
pub open spec fn has_name(entries: Seq<Entry>, name: Seq<u8>) -> bool {
    lookup(entries, name) is Some
}

/// Well-formedness of a node: every directory below it is well-formed.
pub open spec fn node_wf(node: Node) -> bool
    decreases node,
{
    match node {
        Node::File { .. } => true,
        Node::Dir { children } => dir_wf(children@),
    }
}

/// Well-formedness of a directory: names are unique and every nested
/// directory is well-formed in turn.
pub open spec fn dir_wf(entries: Seq<Entry>) -> bool
    decreases entries,
{
    entries.len() == 0 || {
        &&& node_wf(entries[0].node)
        &&& !has_name(entries.drop_first(), entries[0].name@)
        &&& dir_wf(entries.drop_first())
    }
}

/// The content of the file reached from `node` by walking `path`, if the
/// walk stays inside directories and ends at a file.
pub open spec fn node_file_at(node: Node, path: Seq<Seq<u8>>) -> Option<Seq<u8>>
    decreases path.len(), 1int,
{
    match node {
        Node::File { content } => if path.len() == 0 {
            Some(content@)
        } else {
            None
        },
        Node::Dir { children } => dir_file_at(children@, path),
    }
}

/// The content of the file reached from a directory by walking `path`.
pub open spec fn dir_file_at(entries: Seq<Entry>, path: Seq<Seq<u8>>) -> Option<Seq<u8>>
    decreases path.len(), 0int,
{
    if path.len() == 0 {
        None
    } else {
        match lookup(entries, path[0]) {
            Some(child) => node_file_at(child, path.drop_first()),
            None => None,
        }
    }
}

/// Whether walking `path` from `node` reaches a directory.
pub open spec fn node_dir_at(node: Node, path: Seq<Seq<u8>>) -> bool
    decreases path.len(), 1int,
{
    match node {
        Node::File { .. } => false,
        Node::Dir { children } => dir_dir_at(children@, path),
    }
}

/// Whether walking `path` from a directory reaches a directory; the empty
/// path reaches the directory itself.
pub open spec fn dir_dir_at(entries: Seq<Entry>, path: Seq<Seq<u8>>) -> bool
    decreases path.len(), 0int,
{
    if path.len() == 0 {
        true
    } else {
        match lookup(entries, path[0]) {
            Some(child) => node_dir_at(child, path.drop_first()),
            None => false,
        }
    }
}

/// A found node is no taller than the directory it was found in.
pub proof fn lemma_lookup_height(entries: Seq<Entry>, name: Seq<u8>)
    ensures
        lookup(entries, name) matches Some(node) ==> node_height(node) <= entries_height(entries),
    decreases entries.len(),
{
    if entries.len() > 0 && entries[0].name@ != name {
        lemma_lookup_height(entries.drop_first(), name);
    }
}

/// A found node in a well-formed directory is well-formed.
pub proof fn lemma_lookup_node_wf(entries: Seq<Entry>, name: Seq<u8>)
    requires
        dir_wf(entries),
    ensures
        lookup(entries, name) matches Some(node) ==> node_wf(node),
    decreases entries.len(),
{
    if entries.len() > 0 && entries[0].name@ != name {
        lemma_lookup_node_wf(entries.drop_first(), name);
    }
}

/// The name at any index is present.
pub proof fn lemma_index_has_name(entries: Seq<Entry>, i: int)
    requires
        0 <= i < entries.len(),
    ensures
        has_name(entries, entries[i].name@),
    decreases entries.len(),
{
    if entries[0].name@ != entries[i].name@ {
        lemma_index_has_name(entries.drop_first(), i - 1);
        assert(entries.drop_first()[i - 1] == entries[i]);
    }
}

/// A present name stands at some index.
pub proof fn lemma_has_name_index(entries: Seq<Entry>, name: Seq<u8>)
    requires
        has_name(entries, name),
    ensures
        exists|i: int| 0 <= i < entries.len() && #[trigger] entries[i].name@ == name,
    decreases entries.len(),
{
    if entries[0].name@ == name {
        assert(entries[0].name@ == name);
    } else {
        lemma_has_name_index(entries.drop_first(), name);
        let j = choose|j: int|
            0 <= j < entries.drop_first().len() && #[trigger] entries.drop_first()[j].name@ == name;
        assert(entries[j + 1].name@ == name);
    }
}

/// In a well-formed directory, entries at distinct indices bear distinct
/// names.
pub proof fn lemma_wf_distinct(entries: Seq<Entry>, i: int, j: int)
    requires
        dir_wf(entries),
        0 <= i < j < entries.len(),
    ensures
        entries[i].name@ != entries[j].name@,
    decreases entries.len(),
{
    if i == 0 {
        assert(entries.drop_first()[j - 1] == entries[j]);
        if entries[0].name@ == entries[j].name@ {
            lemma_index_has_name(entries.drop_first(), j - 1);
        }
    } else {
        assert(entries.drop_first()[i - 1] == entries[i]);
        assert(entries.drop_first()[j - 1] == entries[j]);
        lemma_wf_distinct(entries.drop_first(), i - 1, j - 1);
    }
}

/// In a well-formed directory, looking an entry's own name up finds exactly
/// that entry's node.
pub proof fn lemma_lookup_index(entries: Seq<Entry>, i: int)
    requires
        dir_wf(entries),
        0 <= i < entries.len(),
    ensures
        lookup(entries, entries[i].name@) == Some(entries[i].node),
    decreases entries.len(),
{
    if i > 0 {
        lemma_wf_distinct(entries, 0, i);
        assert(entries.drop_first()[i - 1] == entries[i]);
        lemma_lookup_index(entries.drop_first(), i - 1);
    }
}

/// An entry's node is no taller than its whole directory.
pub proof fn lemma_height_index(entries: Seq<Entry>, i: int)
    requires
        0 <= i < entries.len(),
    ensures
        node_height(entries[i].node) <= entries_height(entries),
    decreases entries.len(),
{
    if i > 0 {
        assert(entries.drop_first()[i - 1] == entries[i]);
        lemma_height_index(entries.drop_first(), i - 1);
    }
}

/// How lookup sees one appended entry: the existing entries shadow it.
pub proof fn lemma_lookup_push(entries: Seq<Entry>, entry: Entry, name: Seq<u8>)
    ensures
        lookup(entries.push(entry), name) == (if lookup(entries, name) is Some {
            lookup(entries, name)
        } else if entry.name@ == name {
            Some(entry.node)
        } else {
            None
        }),
    decreases entries.len(),
{
    if entries.len() == 0 {
        assert(entries.push(entry)[0] == entry);
        assert(entries.push(entry).drop_first() =~= Seq::<Entry>::empty());
    } else {
        assert(entries.push(entry)[0] == entries[0]);
        assert(entries.push(entry).drop_first() =~= entries.drop_first().push(entry));
        lemma_lookup_push(entries.drop_first(), entry, name);
    }
}

/// Appending a fresh, well-formed entry keeps the directory well-formed.
pub proof fn lemma_dir_wf_push(entries: Seq<Entry>, entry: Entry)
    requires
        dir_wf(entries),
        !has_name(entries, entry.name@),
        node_wf(entry.node),
    ensures
        dir_wf(entries.push(entry)),
    decreases entries.len(),
{
    if entries.len() == 0 {
        assert(entries.push(entry)[0] == entry);
        assert(entries.push(entry).drop_first() =~= Seq::<Entry>::empty());
        assert(!has_name(Seq::<Entry>::empty(), entry.name@));
        assert(dir_wf(Seq::<Entry>::empty()));
    } else {
        assert(entries.push(entry)[0] == entries[0]);
        assert(entries.push(entry).drop_first() =~= entries.drop_first().push(entry));
        assert(entries[0].name@ != entry.name@);
        assert(!has_name(entries.drop_first(), entry.name@));
        lemma_dir_wf_push(entries.drop_first(), entry);
        lemma_lookup_push(entries.drop_first(), entry, entries[0].name@);
        assert(!has_name(entries.drop_first().push(entry), entries[0].name@));
        assert(dir_wf(entries.push(entry)));
    }
}

/// Whether two byte strings are equal.
pub fn bytes_eq(a: &Vec<u8>, b: &Vec<u8>) -> (eq: bool)
    ensures
        eq == (a@ == b@),
{
    if a.len() != b.len() {
        return false;
    }
    let mut i: usize = 0;
    while i < a.len()
        invariant
            i <= a.len(),
            a.len() == b.len(),
            forall|j: int| 0 <= j < i ==> a@[j] == b@[j],
        decreases a.len() - i,
    {
        if a[i] != b[i] {
            return false;
        }
        i = i + 1;
    }
    proof {
        assert(a@ =~= b@);
    }
    true
}

/// The index of the entry filed under `name`, if any.
pub fn find_entry(entries: &Vec<Entry>, name: &Vec<u8>) -> (found: Option<usize>)
    ensures
        match found {
            Some(i) => i < entries@.len() && entries@[i as int].name@ == name@ && lookup(
                entries@,
                name@,
            ) == Some(entries@[i as int].node),
            None => lookup(entries@, name@) is None,
        },
{
    let mut i: usize = 0;
    proof {
        assert(entries@.skip(0) =~= entries@);
    }
    while i < entries.len()
        invariant
            i <= entries@.len(),
            lookup(entries@, name@) == lookup(entries@.skip(i as int), name@),
        decreases entries@.len() - i,
    {
        proof {
            assert(entries@.skip(i as int)[0] == entries@[i as int]);
        }
        if bytes_eq(&entries[i].name, name) {
            return Some(i);
        }
        proof {
            assert(entries@.skip(i as int).drop_first() =~= entries@.skip(i as int + 1));
        }
        i = i + 1;
    }
    proof {
        assert(entries@.skip(entries@.len() as int) =~= Seq::<Entry>::empty());
    }
    None
}

} // verus!
