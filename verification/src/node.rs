//! A single cell of the grid.
//!
//! A cell is either `Possible`, holding one flag per value that says whether
//! the value is still a candidate, or `Found`, holding the determined value
//! together with the guess level it was determined at, its position in the
//! guess stack (if the search determined it) and the positions it currently
//! conflicts with.

use crate::coord::Coord;
use vstd::prelude::*;

verus! {

/// The data of a determined cell.
#[derive(Clone, Debug)]
pub struct FoundData {
    pub guess_level: usize,
    pub guess_id: Option<usize>,
    pub num: usize,
    pub conflicts: Vec<Coord>,
}

/// One cell: still open, or determined.
#[derive(Clone, Debug)]
pub enum Node {
    Found(FoundData),
    Possible(Vec<bool>),
}

/// How many of the first `n` flags are set.
pub open spec fn count_true_to(s: Seq<bool>, n: int) -> int
    decreases n,
{
    if n <= 0 {
        0
    } else {
        count_true_to(s, n - 1) + if s[n - 1] {
            1int
        } else {
            0int
        }
    }
}

/// How many flags of `s` are set.
pub open spec fn count_true(s: Seq<bool>) -> int {
    count_true_to(s, s.len() as int)
}

pub proof fn lemma_count_true_bounds(s: Seq<bool>, n: int)
    ensures
        n <= 0 ==> count_true_to(s, n) == 0,
        n >= 0 ==> 0 <= count_true_to(s, n) <= n,
    decreases n,
{
    if n > 0 {
        lemma_count_true_bounds(s, n - 1);
    }
}

pub proof fn lemma_count_true_mono(s: Seq<bool>, m: int, n: int)
    requires
        m <= n,
    ensures
        count_true_to(s, m) <= count_true_to(s, n),
    decreases n - m,
{
    if m < n {
        lemma_count_true_mono(s, m, n - 1);
    }
}

/// No flag among the first `n` is set exactly when the count is zero.
pub proof fn lemma_count_true_zero(s: Seq<bool>, n: int)
    ensures
        count_true_to(s, n) == 0 <==> forall|i: int| 0 <= i < n ==> !s[i],
    decreases n,
{
    if n > 0 {
        lemma_count_true_zero(s, n - 1);
        lemma_count_true_bounds(s, n - 1);
    }
}

/// A vector with `size` flags, all set.
fn all_true(size: usize) -> (r: Vec<bool>)
    ensures
        r@.len() == size,
        forall|i: int| 0 <= i < size ==> r@[i],
{
    let mut r: Vec<bool> = Vec::new();
    let mut i: usize = 0;
    while i < size
        invariant
            i <= size,
            r@.len() == i,
            forall|j: int| 0 <= j < i ==> r@[j],
        decreases size - i,
    {
        r.push(true);
        i += 1;
    }
    r
}

impl Node {
    /// Whether the cell is determined.
    pub open spec fn found(&self) -> bool {
        self matches Node::Found(_)
    }

    /// The determined value.
    pub open spec fn val(&self) -> usize {
        match self {
            Node::Found(d) => d.num,
            Node::Possible(_) => arbitrary(),
        }
    }

    /// The guess level the value was determined at.
    pub open spec fn level(&self) -> usize {
        match self {
            Node::Found(d) => d.guess_level,
            Node::Possible(_) => arbitrary(),
        }
    }

    /// The cell's index into the guess stack, if the search determined it.
    pub open spec fn gid(&self) -> Option<usize> {
        match self {
            Node::Found(d) => d.guess_id,
            Node::Possible(_) => arbitrary(),
        }
    }

    /// The positions the cell is recorded as conflicting with.
    pub open spec fn confl(&self) -> Seq<Coord> {
        match self {
            Node::Found(d) => d.conflicts@,
            Node::Possible(_) => arbitrary(),
        }
    }

    /// The candidate flags of an open cell.
    pub open spec fn poss(&self) -> Seq<bool> {
        match self {
            Node::Found(_) => arbitrary(),
            Node::Possible(l) => l@,
        }
    }

    /// A fresh open cell for a grid of side `size`: every value a candidate.
    pub fn new(size: usize) -> (r: Self)
        ensures
            !r.found(),
            r.poss().len() == size,
            forall|i: int| 0 <= i < size ==> r.poss()[i],
    {
        Self::Possible(all_true(size))
    }

    /// The determined value, if any.
    pub fn solution(&self) -> (r: Option<usize>)
        ensures
            r == if self.found() {
                Some(self.val())
            } else {
                None::<usize>
            },
    {
        if let Self::Found(data) = self {
            Some(data.num)
        } else {
            None
        }
    }

    /// The candidate flags of an open cell, if the cell is open.
    pub fn possibilities(&self) -> (r: Option<&Vec<bool>>)
        ensures
            self.found() ==> r is None,
            !self.found() ==> (r matches Some(l) && l@ == self.poss()),
    {
        if let Self::Possible(list) = self {
            Some(list)
        } else {
            None
        }
    }

    /// How many candidates an open cell still has, if the cell is open.
    pub fn num_possibilities(&self) -> (r: Option<usize>)
        ensures
            r == if self.found() {
                None::<usize>
            } else {
                Some(count_true(self.poss()) as usize)
            },
    {
        if let Self::Possible(list) = self {
            Some(count_vec_true(list))
        } else {
            None
        }
    }

    /// Whether the cell is determined.
    pub fn is_found(&self) -> (r: bool)
        ensures
            r == self.found(),
    {
        if let Self::Found(_) = self {
            true
        } else {
            false
        }
    }

    /// The determined value, if any.
    pub fn get_num(&self) -> (r: Option<usize>)
        ensures
            r == if self.found() {
                Some(self.val())
            } else {
                None::<usize>
            },
    {
        if let Self::Found(data) = self {
            Some(data.num)
        } else {
            None
        }
    }

    /// Records a conflict with `conflict` on a determined cell; no effect on
    /// an open one.
    pub fn add_conflict(&mut self, conflict: Coord)
        ensures
            old(self).found() ==> {
                &&& final(self).found()
                &&& final(self).val() == old(self).val()
                &&& final(self).level() == old(self).level()
                &&& final(self).gid() == old(self).gid()
                &&& final(self).confl() == old(self).confl().push(conflict)
            },
            !old(self).found() ==> *final(self) == *old(self),
    {
        if let Self::Found(ref mut data) = self {
            data.conflicts.push(conflict)
        }
    }

    /// Removes the first record of a conflict with `conflict`, if any.
    pub fn remove_conflict(&mut self, conflict: Coord)
        ensures
            !old(self).found() ==> *final(self) == *old(self),
            old(self).found() ==> {
                &&& final(self).found()
                &&& final(self).val() == old(self).val()
                &&& final(self).level() == old(self).level()
                &&& final(self).gid() == old(self).gid()
                &&& if old(self).confl().contains(conflict) {
                    exists|j: int|
                        {
                            &&& 0 <= j < old(self).confl().len()
                            &&& old(self).confl()[j] == conflict
                            &&& (forall|k: int| 0 <= k < j ==> old(self).confl()[k] != conflict)
                            &&& final(self).confl() == old(self).confl().remove(j)
                        }
                } else {
                    final(self).confl() == old(self).confl()
                }
            },
    {
        if let Self::Found(ref mut data) = self {
            remove_first(&mut data.conflicts, conflict);
        }
    }

    /// The conflict records of a determined cell, if the cell is determined.
    pub fn conflicts(&self) -> (r: Option<&Vec<Coord>>)
        ensures
            !self.found() ==> r is None,
            self.found() ==> (r matches Some(l) && l@ == self.confl()),
    {
        if let Self::Found(ref data) = self {
            Some(&data.conflicts)
        } else {
            None
        }
    }

    /// Whether the cell is determined and in conflict with some position.
    pub fn has_conflicts(&self) -> (r: bool)
        ensures
            r == (self.found() && self.confl().len() > 0),
    {
        if let Self::Found(ref data) = self {
            !data.conflicts.is_empty()
        } else {
            false
        }
    }

    /// Whether the cell still has a candidate; a determined cell counts as
    /// having one.
    pub fn has_possibilities(&self) -> (r: bool)
        ensures
            r == (self.found() || count_true(self.poss()) > 0),
    {
        if let Self::Possible(ref list) = self {
            count_vec_true(list) > 0
        } else {
            true
        }
    }

    /// Whether the cell is in a problem state: determined with a conflict, or
    /// open with no candidate left.
    pub fn has_problems(&self) -> (r: bool)
        ensures
            r == if self.found() {
                self.confl().len() > 0
            } else {
                count_true(self.poss()) == 0
            },
    {
        match self {
            Self::Found(ref data) => !data.conflicts.is_empty(),
            Self::Possible(ref list) => count_vec_true(list) == 0,
        }
    }

    /// Makes every value a candidate again on an open cell; no effect on a
    /// determined one.
    pub fn reset_possible(&mut self)
        ensures
            old(self).found() ==> *final(self) == *old(self),
            !old(self).found() ==> {
                &&& !final(self).found()
                &&& final(self).poss().len() == old(self).poss().len()
                &&& forall|i: int| 0 <= i < final(self).poss().len() ==> final(self).poss()[i]
            },
    {
        if let Self::Possible(ref mut list) = self {
            fill_true(list);
        }
    }

    /// Determines the cell as `num` at guess level `guess_level`, with no
    /// conflicts recorded and no guess-stack index.
    pub fn set(&mut self, num: usize, guess_level: usize)
        ensures
            final(self).found(),
            final(self).val() == num,
            final(self).level() == guess_level,
            final(self).gid() == None::<usize>,
            final(self).confl() == Seq::<Coord>::empty(),
    {
        *self = Self::Found(
            FoundData { guess_level, guess_id: None, num, conflicts: Vec::new() },
        );
    }

    /// Records the guess-stack index of a determined cell; no effect on an
    /// open one.
    pub fn set_guess_id(&mut self, id: usize)
        ensures
            !old(self).found() ==> *final(self) == *old(self),
            old(self).found() ==> {
                &&& final(self).found()
                &&& final(self).val() == old(self).val()
                &&& final(self).level() == old(self).level()
                &&& final(self).confl() == old(self).confl()
                &&& final(self).gid() == Some(id)
            },
    {
        if let Self::Found(ref mut data) = self {
            data.guess_id = Some(id);
        }
    }

    /// Forgets the guess-stack index of a determined cell; no effect on an
    /// open one.
    pub(crate) fn erase_guess_id(&mut self)
        ensures
            !old(self).found() ==> *final(self) == *old(self),
            old(self).found() ==> {
                &&& final(self).found()
                &&& final(self).val() == old(self).val()
                &&& final(self).level() == old(self).level()
                &&& final(self).confl() == old(self).confl()
                &&& final(self).gid() == None::<usize>
            },
    {
        if let Self::Found(ref mut data) = self {
            data.guess_id = None;
        }
    }

    /// The guess-stack index of a determined cell, if it has one.
    pub fn get_guess_id(&mut self) -> (r: Option<usize>)
        ensures
            *final(self) == *old(self),
            r == if old(self).found() {
                old(self).gid()
            } else {
                None::<usize>
            },
    {
        if let Self::Found(ref mut data) = self {
            data.guess_id
        } else {
            None
        }
    }

    /// Returns the cell to open, with every value of a grid of side `size` a
    /// candidate.
    pub fn reset(&mut self, size: usize)
        ensures
            !final(self).found(),
            final(self).poss().len() == size,
            forall|i: int| 0 <= i < size ==> final(self).poss()[i],
    {
        *self = Self::Possible(all_true(size));
    }

    /// How many candidates an open cell still has, if the cell is open.
    pub fn count(&self) -> (r: Option<usize>)
        ensures
            r == if self.found() {
                None::<usize>
            } else {
                Some(count_true(self.poss()) as usize)
            },
    {
        match self {
            Self::Possible(ref list) => Some(count_vec_true(list)),
            Self::Found { .. } => None,
        }
    }

    /// Whether the cell was determined above guess level `cur_guess` and so
    /// must be undone by a rollback to that level.
    pub fn guess_reset(&mut self, cur_guess: usize) -> (r: bool)
        ensures
            *final(self) == *old(self),
            r == (old(self).found() && old(self).level() > cur_guess),
    {
        if let Self::Found(ref data) = self {
            if data.guess_level > cur_guess {
                return true;
            }
        }
        false
    }

    /// Determines an open cell with exactly one candidate left as that
    /// candidate, at guess level `guess`; any other cell is left unchanged.
    pub fn try_solve(&mut self, guess: usize) -> (r: Option<usize>)
        ensures
            old(self).found() ==> *final(self) == *old(self) && r is None,
            !old(self).found() && count_true(old(self).poss()) != 1 ==> *final(self) == *old(self)
                && r is None,
            !old(self).found() && count_true(old(self).poss()) == 1 ==> {
                &&& r matches Some(v)
                &&& 0 <= v < old(self).poss().len()
                &&& old(self).poss()[v as int]
                &&& final(self).found()
                &&& final(self).val() == v
                &&& final(self).level() == guess
                &&& final(self).gid() == None::<usize>
                &&& final(self).confl() == Seq::<Coord>::empty()
            },
    {
        let found: Option<usize> = match &*self {
            Self::Possible(list) => unique_true(list),
            Self::Found(_) => None,
        };
        if let Some(num) = found {
            self.set(num, guess);
            return Some(num);
        }
        None
    }
}

/// Removes the first occurrence of `c` from `list`, if there is one.
fn remove_first(list: &mut Vec<Coord>, c: Coord)
    ensures
        if old(list)@.contains(c) {
            exists|j: int|
                {
                    &&& 0 <= j < old(list)@.len()
                    &&& old(list)@[j] == c
                    &&& (forall|k: int| 0 <= k < j ==> old(list)@[k] != c)
                    &&& final(list)@ == old(list)@.remove(j)
                }
        } else {
            final(list)@ == old(list)@
        },
{
    let n = list.len();
    let mut i: usize = 0;
    while i < n
        invariant
            i <= n,
            n == list@.len(),
            *list == *old(list),
            forall|k: int| 0 <= k < i ==> list@[k] != c,
        decreases n - i,
    {
        if list[i] == c {
            list.remove(i);
            return ;
        }
        i += 1;
    }
}

/// Sets every flag of `list`.
fn fill_true(list: &mut Vec<bool>)
    ensures
        final(list)@.len() == old(list)@.len(),
        forall|i: int| 0 <= i < final(list)@.len() ==> final(list)@[i],
{
    let n = list.len();
    let mut i: usize = 0;
    while i < n
        invariant
            i <= n,
            n == list@.len(),
            forall|j: int| 0 <= j < i ==> list@[j],
        decreases n - i,
    {
        list.set(i, true);
        i += 1;
    }
}

/// The index of the only set flag, if exactly one flag is set.
pub(crate) fn unique_true(list: &Vec<bool>) -> (r: Option<usize>)
    ensures
        match r {
            Some(k) => count_true(list@) == 1 && k < list@.len() && list@[k as int],
            None => count_true(list@) != 1,
        },
{
    let mut found: Option<usize> = None;
    let n = list.len();
    let mut i: usize = 0;
    while i < n
        invariant
            i <= n,
            n == list@.len(),
            match found {
                Some(k) => {
                    &&& k < i
                    &&& list@[k as int]
                    &&& count_true_to(list@, i as int) == 1
                },
                None => count_true_to(list@, i as int) == 0,
            },
        decreases n - i,
    {
        if list[i] {
            if found.is_none() {
                found = Some(i);
            } else {
                proof {
                    lemma_count_true_mono(list@, i as int + 1, n as int);
                }
                return None;
            }
        }
        i += 1;
    }
    found
}

/// The index of the first set flag, if any flag is set.
pub(crate) fn first_true(list: &Vec<bool>) -> (r: Option<usize>)
    ensures
        match r {
            Some(v) => v < list@.len() && list@[v as int] && (forall|w: int|
                0 <= w < v ==> !list@[w]),
            None => forall|w: int| 0 <= w < list@.len() ==> !list@[w],
        },
{
    let n = list.len();
    let mut i: usize = 0;
    while i < n
        invariant
            i <= n,
            n == list@.len(),
            forall|w: int| 0 <= w < i ==> !list@[w],
        decreases n - i,
    {
        if list[i] {
            return Some(i);
        }
        i += 1;
    }
    None
}

/// The index of the first set flag strictly above `from`, if any.
pub(crate) fn next_true(list: &Vec<bool>, from: usize) -> (r: Option<usize>)
    ensures
        match r {
            Some(v) => from < v < list@.len() && list@[v as int],
            None => forall|w: int| from < w < list@.len() ==> !list@[w],
        },
{
    let n = list.len();
    if from >= n {
        return None;
    }
    let mut i: usize = from + 1;
    while i < n
        invariant
            from < i <= n,
            n == list@.len(),
            forall|w: int| from < w < i ==> !list@[w],
        decreases n - i,
    {
        if list[i] {
            return Some(i);
        }
        i += 1;
    }
    None
}

/// Counts the set flags of a vector.
fn count_vec_true(list: &Vec<bool>) -> (r: usize)
    ensures
        r == count_true(list@),
{
    let n = list.len();
    let mut r: usize = 0;
    let mut i: usize = 0;
    proof {
        lemma_count_true_bounds(list@, n as int);
    }
    while i < n
        invariant
            i <= n,
            n == list@.len(),
            r == count_true_to(list@, i as int),
            r <= i,
        decreases n - i,
    {
        if list[i] {
            r += 1;
        }
        i += 1;
    }
    r
}

} // verus!
