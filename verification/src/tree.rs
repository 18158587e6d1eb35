//! An ordered n-ary (rose) tree.

use vstd::prelude::*;

verus! {

/// A tree as contracts speak of it: a datum and the trees below it, first
/// inserted first.
pub struct Rose<U> {
    pub data: U,
    pub children: Seq<Rose<U>>,
}

/// A tree node that owns its datum and an ordered list of child trees.
#[derive(Debug)]
pub struct NTree<U> {
    data: U,
    children: Vec<NTree<U>>,
}

impl<U> View for NTree<U> {
    type V = Rose<U>;

    closed spec fn view(&self) -> Rose<U>
        decreases self,
    {
        Rose { data: self.data, children: Self::forest_view(self.children@) }
    }
}

impl<U> NTree<U> {
    /// The trees of a sequence as contracts speak of them, one by one.
    pub closed spec fn forest_view(forest: Seq<NTree<U>>) -> Seq<Rose<U>>
        decreases forest,
    {
        if forest.len() == 0 {
            Seq::empty()
        } else {
            Self::forest_view(forest.drop_last()).push(forest.last()@)
        }
    }

    /// A forest's view has the forest's length and holds the view of each tree.
    pub proof fn lemma_forest_view(forest: Seq<NTree<U>>)
        ensures
            Self::forest_view(forest).len() == forest.len(),
            forall|i: int| 0 <= i < forest.len() ==> Self::forest_view(forest)[i] == (#[trigger] forest[i])@,
        decreases forest.len(),
    {
        if forest.len() > 0 {
            Self::lemma_forest_view(forest.drop_last());
            let front = Self::forest_view(forest.drop_last());
            assert(Self::forest_view(forest) == front.push(forest.last()@));
            assert forall|i: int| 0 <= i < forest.len() implies Self::forest_view(forest)[i] == (
            #[trigger] forest[i])@ by {
                if i < forest.len() - 1 {
                    assert(forest.drop_last()[i] == forest[i]);
                    assert(front.push(forest.last()@)[i] == front[i]);
                } else {
                    assert(forest[i] == forest.last());
                }
            }
        }
    }

    /// A leaf holding `data`.
    pub fn new(data: U) -> (tree: Self)
        ensures
            tree@ == (Rose { data, children: Seq::empty() }),
    {
        let tree = NTree { data, children: Vec::new() };
        assert(Self::forest_view(tree.children@) =~= Seq::empty());
        tree
    }

    /// Appends `child` behind the children already present.
    pub fn insert(&mut self, child: Self)
        ensures
            final(self)@ == (Rose {
                data: old(self)@.data,
                children: old(self)@.children.push(child@),
            }),
    {
        self.children.push(child);
        proof {
            assert(self.children@.drop_last() == old(self).children@);
        }
    }

    /// The children in insertion order.
    pub fn children(&self) -> (kids: &Vec<NTree<U>>)
        ensures
            kids@.len() == self@.children.len(),
            forall|i: int| 0 <= i < kids@.len() ==> (#[trigger] kids@[i])@ == self@.children[i],
    {
        proof {
            Self::lemma_forest_view(self.children@);
        }
        &self.children
    }

    /// Read access to the datum held at the root.
    pub fn data(&self) -> (datum: &U)
        ensures
            *datum == self@.data,
    {
        &self.data
    }
}

impl<U> std::ops::Deref for NTree<U> {
    type Target = U;

    /// A tree reads as the datum at its root.
    fn deref(&self) -> (datum: &U)
        ensures
            *datum == self@.data,
    {
        &self.data
    }
}

} // verus!
