use vstd::hash_set::StringHashSet;
use vstd::prelude::*;

verus! {

broadcast use vstd::hash_set::group_hash_set_axioms;

/// The path strings of a sequence of `String`s.
pub open spec fn views(v: Seq<String>) -> Seq<Seq<char>> {
    v.map_values(|s: String| s@)
}

/// A set of relative paths, kept together with the order in which they were
/// first added.
pub struct Index {
    set: StringHashSet,
    paths: Vec<String>,
}

impl View for Index {
    type V = Set<Seq<char>>;

    closed spec fn view(&self) -> Set<Seq<char>> {
        self.set@
    }
}

impl Index {
    /// The paths in the order in which they were first added.
    pub closed spec fn order(&self) -> Seq<Seq<char>> {
        views(self.paths@)
    }

    /// The ordered list and the set hold the same paths, each once.
    pub closed spec fn wf(&self) -> bool {
        &&& self.order().no_duplicates()
        &&& self.order().to_set() == self.set@
    }

    /// A well-formed index holds exactly the paths of its order, each once.
    pub proof fn lemma_order_matches(&self)
        requires
            self.wf(),
        ensures
            self.order().no_duplicates(),
            self.order().to_set() == self@,
    {
    }

    pub fn new() -> (r: Index)
        ensures
            r.wf(),
            r@ == Set::<Seq<char>>::empty(),
            r.order() == Seq::<Seq<char>>::empty(),
    {
        let r = Index { set: StringHashSet::new(), paths: Vec::new() };
        proof {
            assert(r.order() =~= Seq::<Seq<char>>::empty());
            assert(r.order().to_set() =~= Set::<Seq<char>>::empty());
        }
        r
    }

    /// Adds a path; a path already present is left where it is.
    pub fn add(&mut self, path: &str)
        requires
            old(self).wf(),
        ensures
            final(self).wf(),
            final(self)@ == old(self)@.insert(path@),
            old(self)@.contains(path@) ==> final(self).order() == old(self).order(),
            !old(self)@.contains(path@) ==> final(self).order() == old(self).order().push(path@),
    {
        if !self.set.contains(path) {
            self.set.insert(path.to_string());
            self.paths.push(path.to_string());
            proof {
                assert(self.order() =~= old(self).order().push(path@));
                assert(self.order().to_set() =~= old(self).order().to_set().insert(path@)) by {
                    old(self).order().lemma_push_to_set_commute(path@);
                }
            }
        }
    }

    pub fn contains(&self, path: &str) -> (r: bool)
        ensures
            r == self@.contains(path@),
    {
        self.set.contains(path)
    }

    pub fn len(&self) -> (r: usize)
        ensures
            r == self@.len(),
    {
        self.set.len()
    }

    /// The paths, each once, in the order in which they were first added.
    pub fn paths(&self) -> (r: &Vec<String>)
        requires
            self.wf(),
        ensures
            views(r@) == self.order(),
            views(r@).no_duplicates(),
            views(r@).to_set() == self@,
    {
        &self.paths
    }
}

} // verus!
