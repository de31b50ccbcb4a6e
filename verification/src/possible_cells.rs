use vstd::prelude::*;
use vstd::set_lib::*;
use crate::new_types::CellVal;

verus! {

/// `im::HashSet`, made known so that it can stand in fields and signatures.
/// Nothing is said of what is inside a value of it.
#[verifier::external_type_specification]
#[verifier::external_body]
#[verifier::reject_recursive_types(A)]
#[verifier::reject_recursive_types(S)]
pub struct ExHashSet<A, S>(im::HashSet<A, S>);

/// The numbers that an `im::HashSet` holds.
pub uninterp spec fn members(s: im::HashSet<usize>) -> Set<usize>;

/// `im::HashSet::new`: the set it returns holds nothing.
#[verifier::external_body]
pub(crate) fn set_new() -> (r: im::HashSet<usize>)
    ensures
        members(r) == Set::<usize>::empty(),
{
    im::HashSet::new()
}

/// `im::HashSet::contains`: whether the number is in the set.
#[verifier::external_body]
pub(crate) fn set_contains(s: &im::HashSet<usize>, v: usize) -> (r: bool)
    ensures
        r == members(*s).contains(v),
{
    s.contains(&v)
}

/// `im::HashSet::update`: a set that holds what the given one holds and
/// the number.
#[verifier::external_body]
pub(crate) fn set_update(s: &im::HashSet<usize>, v: usize) -> (r: im::HashSet<usize>)
    ensures
        members(r) == members(*s).insert(v),
{
    s.update(v)
}

/// `im::HashSet::without`: a set that holds what the given one holds, but
/// for the number.
#[verifier::external_body]
pub(crate) fn set_without(s: &im::HashSet<usize>, v: usize) -> (r: im::HashSet<usize>)
    ensures
        members(r) == members(*s).remove(v),
{
    s.without(&v)
}

/// `im::HashSet::relative_complement`: what the first set holds and the
/// second does not.
#[verifier::external_body]
pub(crate) fn set_relative_complement(a: im::HashSet<usize>, b: im::HashSet<usize>) -> (r:
    im::HashSet<usize>)
    ensures
        members(r) == members(a).difference(members(b)),
{
    a.relative_complement(b)
}

/// `im::HashSet::intersection`: what both sets hold.
#[verifier::external_body]
pub(crate) fn set_intersection(a: im::HashSet<usize>, b: im::HashSet<usize>) -> (r: im::HashSet<
    usize,
>)
    ensures
        members(r) == members(a).intersect(members(b)),
{
    a.intersection(b)
}

/// `im::HashSet::len`: how many numbers the set holds.
#[verifier::external_body]
pub(crate) fn set_len(s: &im::HashSet<usize>) -> (r: usize)
    ensures
        r == members(*s).len(),
{
    s.len()
}

/// `im::HashSet::is_empty`: whether the set holds nothing.
#[verifier::external_body]
pub(crate) fn set_is_empty(s: &im::HashSet<usize>) -> (r: bool)
    ensures
        r == (members(*s) == Set::<usize>::empty()),
{
    s.is_empty()
}

/// `Clone::clone` of `im::HashSet`: a set that holds the same numbers.
#[verifier::external_body]
pub(crate) fn set_clone(s: &im::HashSet<usize>) -> (r: im::HashSet<usize>)
    ensures
        members(r) == members(*s),
{
    s.clone()
}

/// The nine cell values as a set.
pub open spec fn all_values() -> Set<usize> {
    Set::new(|v: usize| 1 <= v <= 9)
}

/// The numbers below `n`, counted up one by one.
pub open spec fn below(n: nat) -> Set<usize>
    decreases n,
{
    if n == 0 {
        Set::<usize>::empty()
    } else {
        below((n - 1) as nat).insert((n - 1) as usize)
    }
}

/// `below(n)` is finite, has `n` members, and holds exactly the numbers
/// under `n`.
pub proof fn lemma_below(n: nat)
    requires
        n <= usize::MAX,
    ensures
        below(n).finite(),
        below(n).len() == n,
        forall|v: usize| #[trigger] below(n).contains(v) <==> v < n,
    decreases n,
{
    if n > 0 {
        lemma_below((n - 1) as nat);
    }
}

/// There are nine cell values.
pub proof fn lemma_all_values()
    ensures
        all_values().finite(),
        all_values().len() == 9,
{
    lemma_below(10);
    assert(all_values() =~= below(10).remove(0));
}

/// The values that a cell can still take.
#[derive(Debug, PartialEq, Eq)]
pub struct PossibleCells {
    set: im::HashSet<usize>,
}

impl View for PossibleCells {
    type V = Set<usize>;

    closed spec fn view(&self) -> Set<usize> {
        members(self.set)
    }
}

impl Clone for PossibleCells {
    fn clone(&self) -> (r: Self)
        ensures
            r@ == self@,
    {
        proof {
            use_type_invariant(self);
        }
        Self { set: set_clone(&self.set) }
    }
}

impl PossibleCells {
    #[verifier::type_invariant]
    pub closed spec fn in_range(self) -> bool {
        members(self.set).subset_of(all_values())
    }

    /// No value at all.
    pub fn new() -> (r: Self)
        ensures
            r@ == Set::<usize>::empty(),
    {
        Self { set: set_new() }
    }

    /// All nine values.
    pub fn all() -> (r: Self)
        ensures
            r@ == all_values(),
    {
        let mut set = set_new();
        let mut i: usize = 1;
        while i <= 9
            invariant
                1 <= i <= 10,
                forall|v: usize| #[trigger] members(set).contains(v) <==> 1 <= v < i,
            decreases 10 - i,
        {
            set = set_update(&set, i);
            i = i + 1;
        }
        assert(members(set) =~= all_values());
        Self { set }
    }

    /// Whether the value is in the set.
    pub fn contains(&self, v: CellVal) -> (r: bool)
        ensures
            r == self@.contains(v@),
    {
        set_contains(&self.set, v.inner())
    }

    /// Puts the value into the set.
    pub fn insert(&mut self, v: CellVal)
        ensures
            final(self)@ == old(self)@.insert(v@),
    {
        proof {
            use_type_invariant(&*self);
        }
        self.set = set_update(&self.set, v.inner());
    }

    /// The set without the value.
    pub fn without(&self, v: CellVal) -> (r: Self)
        ensures
            r@ == self@.remove(v@),
    {
        proof {
            use_type_invariant(self);
        }
        Self { set: set_without(&self.set, v.inner()) }
    }

    /// The values of this set that are not in the other.
    pub fn relative_complement(&self, other: &Self) -> (r: Self)
        ensures
            r@ == self@.difference(other@),
    {
        proof {
            use_type_invariant(self);
        }
        Self { set: set_relative_complement(set_clone(&self.set), set_clone(&other.set)) }
    }

    /// The values that are in both sets.
    pub fn intersection(&self, other: &Self) -> (r: Self)
        ensures
            r@ == self@.intersect(other@),
    {
        proof {
            use_type_invariant(self);
        }
        Self { set: set_intersection(set_clone(&self.set), set_clone(&other.set)) }
    }

    /// How many values the set holds.
    pub fn len(&self) -> (r: usize)
        ensures
            r == self@.len(),
            r <= 9,
    {
        proof {
            use_type_invariant(self);
            self.lemma_in_range();
        }
        set_len(&self.set)
    }

    /// Whether the set holds no value.
    pub fn is_empty(&self) -> (r: bool)
        ensures
            r == self@.is_empty(),
            r == (self@.len() == 0),
    {
        proof {
            use_type_invariant(self);
            self.lemma_in_range();
            lemma_set_empty_equivalency_len(self@);
        }
        set_is_empty(&self.set)
    }

    /// The one value of a set that holds exactly one.
    pub fn sole(&self) -> (r: Option<CellVal>)
        ensures
            r is Some <==> self@.len() == 1,
            r matches Some(v) ==> self@ == Set::<usize>::empty().insert(v@),
    {
        proof {
            use_type_invariant(self);
            self.lemma_in_range();
        }
        if set_len(&self.set) != 1 {
            return None;
        }
        let mut i: usize = 1;
        while i < 9
            invariant
                1 <= i <= 9,
                self@.finite(),
                self@.len() == 1,
                self@.subset_of(all_values()),
                forall|w: usize| 1 <= w < i ==> !self@.contains(w),
            decreases 9 - i,
        {
            if set_contains(&self.set, i) {
                proof {
                    Set::lemma_is_singleton(self@);
                    assert(self@ =~= Set::<usize>::empty().insert(i));
                }
                return Some(CellVal::known(i));
            }
            i = i + 1;
        }
        proof {
            lemma_set_empty_equivalency_len(self@);
            let x = choose|x: usize| self@.contains(x);
            assert(all_values().contains(x));
            assert(x == 9);
            Set::lemma_is_singleton(self@);
            assert(self@ =~= Set::<usize>::empty().insert(9));
        }
        Some(CellVal::known(9))
    }

    /// The values of the set, ascending.
    pub fn values(&self) -> (r: Vec<CellVal>)
        ensures
            forall|i: int| 0 <= i < r@.len() ==> self@.contains((#[trigger] r@[i])@),
            forall|i: int, j: int| 0 <= i < j < r@.len() ==> (#[trigger] r@[i])@ < (#[trigger] r@[j])@,
            forall|v: usize|
                self@.contains(v) ==> exists|i: int| 0 <= i < r@.len() && (#[trigger] r@[i])@ == v,
    {
        proof {
            use_type_invariant(self);
        }
        let mut out: Vec<CellVal> = Vec::new();
        let mut i: usize = 1;
        while i <= 9
            invariant
                1 <= i <= 10,
                forall|k: int| 0 <= k < out@.len() ==> self@.contains((#[trigger] out@[k])@),
                forall|k: int| 0 <= k < out@.len() ==> (#[trigger] out@[k])@ < i,
                forall|k: int, j: int|
                    0 <= k < j < out@.len() ==> (#[trigger] out@[k])@ < (#[trigger] out@[j])@,
                forall|v: usize|
                    self@.contains(v) && v < i ==> exists|k: int|
                        0 <= k < out@.len() && (#[trigger] out@[k])@ == v,
            decreases 10 - i,
        {
            if set_contains(&self.set, i) {
                let ghost before = out@;
                out.push(CellVal::known(i));
                proof {
                    assert forall|v: usize| self@.contains(v) && v < i + 1 implies exists|k: int|
                        0 <= k < out@.len() && (#[trigger] out@[k])@ == v by {
                        if v < i {
                            let k = choose|k: int| 0 <= k < before.len() && (#[trigger] before[k])@ == v;
                            assert(out@[k] == before[k]);
                        } else {
                            assert(out@[before.len() as int]@ == v);
                        }
                    }
                }
            }
            i = i + 1;
        }
        proof {
            assert forall|v: usize| self@.contains(v) implies exists|k: int|
                0 <= k < out@.len() && (#[trigger] out@[k])@ == v by {
                assert(all_values().contains(v));
            }
        }
        out
    }

    /// What the type's invariant gives: only values from 1 to 9 are held,
    /// so the set is finite and holds at most nine of them.
    pub proof fn lemma_in_range(self)
        requires
            self.in_range(),
        ensures
            self@.subset_of(all_values()),
            self@.finite(),
            self@.len() <= 9,
    {
        lemma_all_values();
        lemma_len_subset(self@, all_values());
    }
}

} // verus!
