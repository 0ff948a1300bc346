use vstd::prelude::*;
use crate::space::{Space, space_idx, space_at, lemma_space_idx};

verus! {

/// Number of `true` entries among the first `n` of `s`.
pub open spec fn ntrue(s: Seq<bool>, n: int) -> nat
    decreases n,
{
    if n <= 0 {
        0
    } else {
        ntrue(s, n - 1) + if s[n - 1] { 1nat } else { 0nat }
    }
}

/// The values present among the first `n` positions, ascending.
pub open spec fn present(s: Seq<bool>, n: int) -> Seq<Space>
    decreases n,
{
    if n <= 0 {
        Seq::empty()
    } else if s[n - 1] {
        present(s, n - 1).push(space_at(n - 1))
    } else {
        present(s, n - 1)
    }
}

pub proof fn lemma_ntrue_zero(s: Seq<bool>, n: int)
    requires
        0 <= n <= s.len(),
    ensures
        ntrue(s, n) == 0 <==> (forall|j: int| 0 <= j < n ==> !s[j]),
    decreases n,
{
    if n > 0 {
        lemma_ntrue_zero(s, n - 1);
    }
}

pub proof fn lemma_ntrue_one(s: Seq<bool>, n: int, k: int)
    requires
        0 <= k < n <= s.len(),
        s[k],
        ntrue(s, n) == 1,
    ensures
        forall|j: int| 0 <= j < n && j != k ==> !s[j],
    decreases n,
{
    if k == n - 1 {
        lemma_ntrue_zero(s, n - 1);
    } else {
        lemma_ntrue_zero(s, n - 1);
        lemma_ntrue_one(s, n - 1, k);
    }
}

pub proof fn lemma_ntrue_only(s: Seq<bool>, n: int, k: int)
    requires
        0 <= k < n <= s.len(),
        forall|j: int| 0 <= j < n ==> s[j] == (j == k),
    ensures
        ntrue(s, n) == 1,
    decreases n,
{
    if k == n - 1 {
        lemma_ntrue_zero(s, n - 1);
    } else {
        lemma_ntrue_only(s, n - 1, k);
    }
}

/// Counting is monotone in the pointwise order, and strictly so where one entry is lost.
pub proof fn lemma_ntrue_sub(a: Seq<bool>, b: Seq<bool>, n: int)
    requires
        0 <= n <= a.len(),
        n <= b.len(),
        forall|j: int| 0 <= j < n && a[j] ==> b[j],
    ensures
        ntrue(a, n) <= ntrue(b, n),
        (exists|j: int| 0 <= j < n && b[j] && !a[j]) ==> ntrue(a, n) < ntrue(b, n),
    decreases n,
{
    if n > 0 {
        lemma_ntrue_sub(a, b, n - 1);
        if exists|j: int| 0 <= j < n && b[j] && !a[j] {
            let j = choose|j: int| 0 <= j < n && b[j] && !a[j];
            if j < n - 1 {
                assert(exists|j: int| 0 <= j < n - 1 && b[j] && !a[j]);
            }
        }
    }
}

/// The first position at or after `k` where `c` is `true`, 9 where there is none.
pub open spec fn first_of(c: Seq<bool>, k: int) -> int
    decreases 9 - k,
{
    if k >= 9 {
        9
    } else if c[k] {
        k
    } else {
        first_of(c, k + 1)
    }
}

/// The candidate set whose entries are `s`.
pub open spec fn choices_of(s: Seq<bool>) -> SudokuChoices {
    choose|c: SudokuChoices| c@ == s
}

/// A candidate set is determined by its entries.
pub proof fn lemma_choices_of(c: SudokuChoices)
    ensures
        choices_of(c@) == c,
{
    broadcast use vstd::array::axiom_array_ext_equal;
    assert(c@ == c@);
    assert(exists|x: SudokuChoices| #[trigger] x@ == c@);
    let d = choices_of(c@);
    assert(d.0 =~= c.0);
}

/// The set of values that remain possible at one cell.
#[derive(Copy, Clone, Debug, PartialEq, Eq)]
pub struct SudokuChoices(pub [bool; 9]);

impl View for SudokuChoices {
    type V = Seq<bool>;

    open spec fn view(&self) -> Seq<bool> {
        self.0@
    }
}

impl SudokuChoices {
    /// Whether value `s` is in the set.
    pub open spec fn has(self, s: Space) -> bool {
        self@[space_idx(s)]
    }

    /// Number of values in the set.
    pub open spec fn size(self) -> nat {
        ntrue(self@, 9)
    }

    /// The set is exactly `{s}`.
    pub open spec fn is_only(self, s: Space) -> bool {
        forall|j: int| 0 <= j < 9 ==> self@[j] == (j == space_idx(s))
    }

    /// The set holds every value.
    pub open spec fn is_full(self) -> bool {
        forall|j: int| 0 <= j < 9 ==> self@[j]
    }

    /// Every value of `self` is in `other`.
    pub open spec fn within(self, other: SudokuChoices) -> bool {
        forall|j: int| 0 <= j < 9 && self@[j] ==> other@[j]
    }

    /// The full set.
    pub fn all() -> (r: SudokuChoices)
        ensures
            r.is_full(),
    {
        SudokuChoices([true; 9])
    }

    /// The set `{s}`.
    pub fn singleton(s: Space) -> (r: SudokuChoices)
        ensures
            r.is_only(s),
            r.has(s),
    {
        let mut a = [false; 9];
        a[s.idx()] = true;
        SudokuChoices(a)
    }

    /// `{s}` for a determined cell, the full set for an undetermined one.
    pub fn new(initial_choice: Option<Space>) -> (r: SudokuChoices)
        ensures
            match initial_choice {
                Some(s) => r.is_only(s),
                None => r.is_full(),
            },
    {
        match initial_choice {
            Some(s) => SudokuChoices::singleton(s),
            None => SudokuChoices::all(),
        }
    }

    pub fn contains(&self, s: Space) -> (r: bool)
        ensures
            r == self.has(s),
    {
        self.0[s.idx()]
    }

    /// Takes `s` out of the set.
    pub fn remove(&mut self, s: Space)
        ensures
            final(self)@ == old(self)@.update(space_idx(s), false),
    {
        proof {
            lemma_space_idx(s);
        }
        self.0[s.idx()] = false;
    }

    /// The values in the set, ascending.
    pub fn iter(&self) -> (r: Vec<Space>)
        ensures
            r@ == present(self@, 9),
    {
        let mut r: Vec<Space> = Vec::new();
        let mut k: usize = 0;
        while k < 9
            invariant
                k <= 9,
                r@ == present(self@, k as int),
            decreases 9 - k,
        {
            if self.0[k] {
                r.push(Space::at(k));
            }
            k = k + 1;
        }
        r
    }

    /// Number of values in the set.
    pub fn count(&self) -> (r: usize)
        ensures
            r == self.size(),
    {
        let mut r: usize = 0;
        let mut k: usize = 0;
        while k < 9
            invariant
                k <= 9,
                r == ntrue(self@, k as int),
                r <= k,
            decreases 9 - k,
        {
            if self.0[k] {
                r = r + 1;
            }
            k = k + 1;
        }
        r
    }

    /// Whether the two sets hold the same values.
    pub fn equals(&self, other: &SudokuChoices) -> (r: bool)
        ensures
            r == (self@ == other@),
    {
        let mut k: usize = 0;
        while k < 9
            invariant
                k <= 9,
                forall|j: int| 0 <= j < k ==> self@[j] == other@[j],
            decreases 9 - k,
        {
            if self.0[k] != other.0[k] {
                return false;
            }
            k = k + 1;
        }
        assert(self@ =~= other@);
        true
    }

    /// The smallest value in a non-empty set.
    pub fn first(&self) -> (r: Space)
        requires
            self.size() >= 1,
        ensures
            self.has(r),
            forall|j: int| 0 <= j < space_idx(r) ==> !self@[j],
            space_idx(r) == first_of(self@, 0),
    {
        let mut k: usize = 0;
        while k < 9
            invariant
                k <= 9,
                forall|j: int| 0 <= j < k ==> !self@[j],
                first_of(self@, 0) == first_of(self@, k as int),
            decreases 9 - k,
        {
            if self.0[k] {
                return Space::at(k);
            }
            k = k + 1;
        }
        proof {
            lemma_ntrue_zero(self@, 9);
        }
        Space::One
    }
}

} // verus!
