//! The state database: the set of unspent State Objects, keyed by id.
use crate::bytes::eq32;
use crate::ledger::{StateObject, StateObjectView};
use vstd::prelude::*;

verus! {

/// Why a state database operation failed.
#[derive(Debug, PartialEq, Eq)]
pub enum StateError {
    /// An object with this id is already present.
    AlreadyExists(crate::crypto::Hash),
    /// No object with this id is present.
    NotFound(crate::crypto::Hash),
}

/// The abstract value of a [`StateError`].
pub enum StateErrorView {
    AlreadyExists(Seq<u8>),
    NotFound(Seq<u8>),
}

impl View for StateError {
    type V = StateErrorView;

    open spec fn view(&self) -> StateErrorView {
        match self {
            StateError::AlreadyExists(h) => StateErrorView::AlreadyExists(h@),
            StateError::NotFound(h) => StateErrorView::NotFound(h@),
        }
    }
}

/// An in-memory map from State Object id to State Object.
pub struct StateDB {
    objects: Vec<StateObject>,
    contents: Ghost<Map<Seq<u8>, StateObjectView>>,
}

impl View for StateDB {
    type V = Map<Seq<u8>, StateObjectView>;

    closed spec fn view(&self) -> Map<Seq<u8>, StateObjectView> {
        self.contents@
    }
}

impl StateDB {
    /// Each stored object is under its own id, ids are distinct, and the map
    /// holds exactly the stored objects.
    pub closed spec fn wf(&self) -> bool {
        &&& forall|i: int|
            0 <= i < self.objects@.len() ==> {
                &&& #[trigger] self.contents@.contains_key(self.objects@[i].id@)
                &&& self.contents@[self.objects@[i].id@] == self.objects@[i]@
            }
        &&& forall|k: Seq<u8>|
            #[trigger] self.contents@.contains_key(k) ==> exists|i: int|
                0 <= i < self.objects@.len() && #[trigger] self.objects@[i].id@ == k
        &&& forall|i: int, j: int|
            0 <= i < j < self.objects@.len() ==> #[trigger] self.objects@[i].id@
                != #[trigger] self.objects@[j].id@
    }

    /// Creates an empty database.
    pub fn new() -> (r: Self)
        ensures
            r.wf(),
            r@ == Map::<Seq<u8>, StateObjectView>::empty(),
    {
        StateDB { objects: Vec::new(), contents: Ghost(Map::empty()) }
    }

    /// The position of the object with this id, if any.
    fn position(&self, id: &crate::crypto::Hash) -> (r: Option<usize>)
        requires
            self.wf(),
        ensures
            match r {
                Some(i) => i < self.objects@.len() && self.objects@[i as int].id@ == id@,
                None => !self@.contains_key(id@),
            },
    {
        let mut i: usize = 0;
        while i < self.objects.len()
            invariant
                i <= self.objects@.len(),
                forall|j: int| 0 <= j < i ==> self.objects@[j].id@ != id@,
            decreases self.objects@.len() - i,
        {
            if eq32(&self.objects[i].id, id) {
                return Some(i);
            }
            i = i + 1;
        }
        None
    }

    /// Whether an object with this id is present.
    pub fn contains(&self, id: &crate::crypto::Hash) -> (r: bool)
        requires
            self.wf(),
        ensures
            r == self@.contains_key(id@),
    {
        match self.position(id) {
            Some(_) => true,
            None => false,
        }
    }

    /// Inserts a State Object under its id; fails if that id is present.
    pub fn add_so(&mut self, so: StateObject) -> (r: Result<(), StateError>)
        requires
            old(self).wf(),
        ensures
            final(self).wf(),
            old(self)@.contains_key(so.id@) ==> r == Err::<(), StateError>(
                StateError::AlreadyExists(so.id),
            ) && final(self)@ == old(self)@,
            !old(self)@.contains_key(so.id@) ==> r is Ok && final(self)@ == old(self)@.insert(
                so.id@,
                so@,
            ),
    {
        if self.contains(&so.id) {
            return Err(StateError::AlreadyExists(so.id));
        }
        let ghost key = so.id@;
        let ghost value = so@;
        let ghost old_objects = self.objects@;
        self.objects.push(so);
        self.contents = Ghost(self.contents@.insert(key, value));
        proof {
            assert forall|k: Seq<u8>| #[trigger] self.contents@.contains_key(k) implies exists|
                i: int,
            | 0 <= i < self.objects@.len() && #[trigger] self.objects@[i].id@ == k by {
                if k == key {
                    assert(self.objects@[old_objects.len() as int].id@ == k);
                } else {
                    assert(old(self).contents@.contains_key(k));
                    let i = choose|i: int|
                        0 <= i < old_objects.len() && #[trigger] old_objects[i].id@ == k;
                    assert(self.objects@[i].id@ == k);
                }
            }
        }
        Ok(())
    }

    /// The object with this id.
    pub fn get_so(&self, id: &crate::crypto::Hash) -> (r: Result<&StateObject, StateError>)
        requires
            self.wf(),
        ensures
            self@.contains_key(id@) ==> (r matches Ok(so) && so@ == self@[id@]),
            !self@.contains_key(id@) ==> r == Err::<&StateObject, StateError>(
                StateError::NotFound(*id),
            ),
    {
        match self.position(id) {
            Some(i) => Ok(&self.objects[i]),
            None => Err(StateError::NotFound(*id)),
        }
    }

    /// Removes and returns the object with this id.
    pub fn remove_so(&mut self, id: &crate::crypto::Hash) -> (r: Result<StateObject, StateError>)
        requires
            old(self).wf(),
        ensures
            final(self).wf(),
            old(self)@.contains_key(id@) ==> (r matches Ok(so) && so@ == old(self)@[id@])
                && final(self)@ == old(self)@.remove(id@),
            !old(self)@.contains_key(id@) ==> r == Err::<StateObject, StateError>(
                StateError::NotFound(*id),
            ) && final(self)@ == old(self)@,
    {
        match self.position(id) {
            None => Err(StateError::NotFound(*id)),
            Some(i) => {
                let ghost old_objects = self.objects@;
                let ghost key = id@;
                let so = self.objects.remove(i);
                self.contents = Ghost(self.contents@.remove(key));
                proof {
                    assert forall|j: int| 0 <= j < self.objects@.len() implies {
                        &&& #[trigger] self.contents@.contains_key(self.objects@[j].id@)
                        &&& self.contents@[self.objects@[j].id@] == self.objects@[j]@
                    } by {
                        if j < i {
                            assert(self.objects@[j] == old_objects[j]);
                        } else {
                            assert(self.objects@[j] == old_objects[j + 1]);
                        }
                    }
                    assert forall|k: Seq<u8>| #[trigger] self.contents@.contains_key(k) implies exists|
                        j: int,
                    | 0 <= j < self.objects@.len() && #[trigger] self.objects@[j].id@ == k by {
                        assert(old(self).contents@.contains_key(k));
                        let j = choose|j: int|
                            0 <= j < old_objects.len() && #[trigger] old_objects[j].id@ == k;
                        assert(j != i);
                        if j < i {
                            assert(self.objects@[j].id@ == k);
                        } else {
                            assert(self.objects@[j - 1].id@ == k);
                        }
                    }
                    assert forall|a: int, b: int|
                        0 <= a < b < self.objects@.len() implies #[trigger] self.objects@[a].id@
                        != #[trigger] self.objects@[b].id@ by {
                        let a0 = if a < i { a } else { a + 1 };
                        let b0 = if b < i { b } else { b + 1 };
                        assert(self.objects@[a] == old_objects[a0]);
                        assert(self.objects@[b] == old_objects[b0]);
                    }
                }
                Ok(so)
            },
        }
    }
}

} // verus!
