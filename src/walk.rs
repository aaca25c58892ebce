use crate::engine::{diff_indexes, diff_of};
use crate::index::{views, Index};
use vstd::prelude::*;

verus! {

/// What `Path::strip_prefix` leaves of `entry` once `root` is taken off its
/// front, as a string; `None` where `root` is not a prefix of `entry`.
pub uninterp spec fn relative_of(root: Seq<char>, entry: Seq<char>) -> Option<Seq<char>>;

/// Relies on std's `Path::strip_prefix`, which compares whole path
/// components, and on `Path::display`, which is exact on a path that came from
/// a `&str`.
#[verifier::external_body]
fn strip_root(root: &str, entry: &str) -> (r: Option<String>)
    ensures
        match r {
            Some(s) => relative_of(root@, entry@) == Some(s@),
            None => relative_of(root@, entry@) is None,
        },
{
    std::path::Path::new(entry).strip_prefix(root).ok().map(|p| p.display().to_string())
}

/// The relative paths of the walked entries under `root`: each entry with the
/// root taken off, entries outside the root left out.
pub open spec fn indexed(root: Seq<char>, entries: Seq<Seq<char>>) -> Set<Seq<char>> {
    Set::new(
        |p: Seq<char>|
            exists|i: int| 0 <= i < entries.len() && #[trigger] relative_of(root, entries[i]) == Some(p),
    )
}

/// Why a diff could not be made.
pub enum DiffError {
    /// The root of a tree could not be opened for walking.
    RootNotReadable { root: String },
}

impl DiffError {
    pub open spec fn names_root(&self, root: Seq<char>) -> bool {
        match self {
            DiffError::RootNotReadable { root: r } => r@ == root,
        }
    }

    /// A line that describes the error.
    pub fn message(&self) -> (r: String)
        ensures
            match self {
                DiffError::RootNotReadable { root } => r@ == "cannot read root "@ + root@,
            },
    {
        match self {
            DiffError::RootNotReadable { root } => {
                let mut m = String::from_str("cannot read root ");
                m.append(root.as_str());
                m
            },
        }
    }
}

/// Builds the index of a tree from the full paths of its walked entries, in
/// walk order: each entry is stored relative to `root`.
pub fn construct_index(root: &str, entries: &Vec<String>) -> (r: Index)
    ensures
        r.wf(),
        r@ == indexed(root@, views(entries@)),
{
    let mut index = Index::new();
    let mut i: usize = 0;
    while i < entries.len()
        invariant
            i <= entries@.len(),
            index.wf(),
            index@ == indexed(root@, views(entries@.subrange(0, i as int))),
        decreases entries@.len() - i,
    {
        let entry = entries[i].as_str();
        let rel = strip_root(root, entry);
        let ghost before = index@;
        match rel {
            Some(p) => {
                index.add(p.as_str());
            },
            None => {},
        }
        proof {
            let old_es = views(entries@.subrange(0, i as int));
            let es = views(entries@.subrange(0, i + 1));
            assert(es =~= old_es.push(entry@));
            assert forall|p: Seq<char>| index@.contains(p) <==> indexed(root@, es).contains(p) by {
                if indexed(root@, old_es).contains(p) {
                    let j = choose|j: int|
                        0 <= j < old_es.len() && #[trigger] relative_of(root@, old_es[j]) == Some(p);
                    assert(es[j] == old_es[j]);
                }
                if indexed(root@, es).contains(p) {
                    let j = choose|j: int|
                        0 <= j < es.len() && #[trigger] relative_of(root@, es[j]) == Some(p);
                    if j < old_es.len() {
                        assert(es[j] == old_es[j]);
                    }
                }
                if relative_of(root@, entry@) == Some(p) {
                    assert(es[old_es.len() as int] == entry@);
                }
            }
            assert(index@ =~= indexed(root@, es));
        }
        i = i + 1;
    }
    proof {
        assert(entries@.subrange(0, entries@.len() as int) =~= entries@);
    }
    index
}

/// Indexes the tree under `root`, given its walk: `None` where the root
/// itself could not be opened, else the full paths of the entries that could
/// be read.
pub fn index_tree(root: &str, listing: &Option<Vec<String>>) -> (r: Result<Index, DiffError>)
    ensures
        match listing {
            None => r matches Err(e) && e.names_root(root@),
            Some(entries) => r matches Ok(index) && index.wf() && index@ == indexed(
                root@,
                views(entries@),
            ),
        },
{
    match listing {
        None => Err(DiffError::RootNotReadable { root: root.to_string() }),
        Some(entries) => Ok(construct_index(root, entries)),
    }
}

/// The relative paths under the source root that are absent under the target
/// root, with the work shared among `workers` worker threads. A root that
/// could not be opened is an error, the source root's first.
pub fn diff_trees(
    source_root: &str,
    source_listing: &Option<Vec<String>>,
    target_root: &str,
    target_listing: &Option<Vec<String>>,
    workers: usize,
) -> (r: Result<Index, DiffError>)
    requires
        workers > 0,
    ensures
        match (source_listing, target_listing) {
            (None, _) => r matches Err(e) && e.names_root(source_root@),
            (Some(_), None) => r matches Err(e) && e.names_root(target_root@),
            (Some(s), Some(t)) => r matches Ok(d) && d.wf() && d@ == diff_of(
                indexed(source_root@, views(s@)),
                indexed(target_root@, views(t@)),
            ),
        },
{
    let source = index_tree(source_root, source_listing)?;
    let target = index_tree(target_root, target_listing)?;
    Ok(diff_indexes(&source, &target, workers))
}

/// Relies on `num_cpus::get`, which always returns at least one.
#[verifier::external_body]
fn available_workers() -> (r: usize)
    ensures
        r >= 1,
{
    num_cpus::get()
}

/// The relative paths under the source root that are absent under the target
/// root, with the work shared among as many worker threads as the machine
/// offers. A root that could not be opened is an error, the source root's
/// first.
pub fn diff(
    source_root: &str,
    source_listing: &Option<Vec<String>>,
    target_root: &str,
    target_listing: &Option<Vec<String>>,
) -> (r: Result<Index, DiffError>)
    ensures
        match (source_listing, target_listing) {
            (None, _) => r matches Err(e) && e.names_root(source_root@),
            (Some(_), None) => r matches Err(e) && e.names_root(target_root@),
            (Some(s), Some(t)) => r matches Ok(d) && d.wf() && d@ == diff_of(
                indexed(source_root@, views(s@)),
                indexed(target_root@, views(t@)),
            ),
        },
{
    let workers = available_workers();
    diff_trees(source_root, source_listing, target_root, target_listing, workers)
}

/// Two walks that list the same entries, in whatever order, give the same
/// index.
pub proof fn lemma_indexing_ignores_order(root: Seq<char>, a: Seq<Seq<char>>, b: Seq<Seq<char>>)
    requires
        a.to_set() == b.to_set(),
    ensures
        indexed(root, a) == indexed(root, b),
{
    assert forall|x: Seq<Seq<char>>, y: Seq<Seq<char>>, p: Seq<char>|
        x.to_set() == y.to_set() && #[trigger] indexed(root, x).contains(p) implies #[trigger] indexed(
            root,
            y,
        ).contains(p) by {
        let i = choose|i: int| 0 <= i < x.len() && #[trigger] relative_of(root, x[i]) == Some(p);
        assert(x.to_set().contains(x[i]));
        assert(y.contains(x[i]));
        let j = choose|j: int| 0 <= j < y.len() && y[j] == x[i];
        assert(relative_of(root, y[j]) == Some(p));
    }
    assert(indexed(root, a) =~= indexed(root, b));
}

} // verus!
