//! A table of names that rows refer to by handle.

use vstd::prelude::*;

verus! {

/// A table of names. Its view is the sequence of the names in the order in which
/// they were pushed.
#[derive(Debug)]
pub struct StringArena {
    arena: Vec<Vec<u8>>,
}

/// The place of a name in a [`StringArena`].
#[derive(Debug, Clone, Copy)]
pub struct StringArenaHandle {
    idx: usize,
}

impl StringArenaHandle {
    /// The place that the handle stands for.
    pub closed spec fn index(&self) -> int {
        self.idx as int
    }

    /// The handle of the name at place `i`.
    pub closed spec fn at(i: int) -> StringArenaHandle {
        StringArenaHandle { idx: i as usize }
    }

    /// The handle of a place stands for that place.
    pub proof fn lemma_at(i: int)
        requires
            0 <= i <= usize::MAX,
        ensures
            Self::at(i).index() == i,
    {
    }
}

impl View for StringArena {
    type V = Seq<Seq<u8>>;

    closed spec fn view(&self) -> Seq<Seq<u8>> {
        self.arena.deep_view()
    }
}

impl Default for StringArena {
    /// A table without names.
    fn default() -> (r: Self)
        ensures
            r@ == Seq::<Seq<u8>>::empty(),
    {
        let r = StringArena { arena: Vec::new() };
        assert(r@ =~= Seq::<Seq<u8>>::empty());
        r
    }
}

impl StringArena {
    /// Adds a name and returns its handle.
    pub fn push(&mut self, s: Vec<u8>) -> (h: StringArenaHandle)
        ensures
            final(self)@ == old(self)@.push(s@),
            h.index() == old(self)@.len(),
            h == StringArenaHandle::at(old(self)@.len() as int),
    {
        assert(s.deep_view() =~= s@);
        let ghost before = self.arena.deep_view();
        self.arena.push(s);
        assert(self.arena.deep_view() =~= before.push(s@));
        StringArenaHandle { idx: self.arena.len() - 1 }
    }

    /// The name that `h` stands for. The handle has to come from this table.
    pub fn get(&self, h: StringArenaHandle) -> (r: &[u8])
        requires
            0 <= h.index() < self@.len(),
        ensures
            r@ == self@[h.index()],
    {
        let r: &Vec<u8> = &self.arena[h.idx];
        assert(r.deep_view() =~= r@);
        r.as_slice()
    }

    /// Number of names in the table.
    pub fn len(&self) -> (r: usize)
        ensures
            r == self@.len(),
    {
        self.arena.len()
    }

    /// Whether `h` stands for a name of this table.
    pub fn holds(&self, h: StringArenaHandle) -> (r: bool)
        ensures
            r == (0 <= h.index() < self@.len()),
    {
        h.idx < self.arena.len()
    }
}

} // verus!
