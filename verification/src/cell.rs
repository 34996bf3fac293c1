//! A single grid position: either collapsed to a definite digit, or a set
//! of digits still possible there (its domain).

use vstd::prelude::*;
use vstd::string::StringSliceAdditionalSpecFns;

use crate::number::is_number_token;
use crate::number::digits_of;
use crate::number::parse_number_result;
use crate::number::token_value;
use crate::number::Number;
use crate::number::ParseNumberError;

verus! {

/// How many entries of a possibility mask are set.
pub open spec fn count_true(s: Seq<bool>) -> int
    decreases s.len(),
{
    if s.len() == 0 {
        0
    } else {
        count_true(s.drop_last()) + if s.last() {
            1int
        } else {
            0int
        }
    }
}

pub broadcast proof fn lemma_count_true_bounds(s: Seq<bool>)
    ensures
        0 <= #[trigger] count_true(s) <= s.len(),
    decreases s.len(),
{
    if s.len() > 0 {
        lemma_count_true_bounds(s.drop_last());
    }
}

/// Counting step: extending a prefix by one entry.
pub proof fn lemma_count_true_take_step(s: Seq<bool>, i: int)
    requires
        0 <= i < s.len(),
    ensures
        count_true(s.take(i + 1)) == count_true(s.take(i)) + if s[i] {
            1int
        } else {
            0int
        },
{
    assert(s.take(i + 1).drop_last() =~= s.take(i));
}

/// How an update changes the count.
pub proof fn lemma_count_true_update(s: Seq<bool>, i: int, b: bool)
    requires
        0 <= i < s.len(),
    ensures
        count_true(s.update(i, b)) == count_true(s) - (if s[i] {
            1int
        } else {
            0int
        }) + (if b {
            1int
        } else {
            0int
        }),
    decreases s.len(),
{
    if i == s.len() - 1 {
        assert(s.update(i, b).drop_last() =~= s.drop_last());
    } else {
        lemma_count_true_update(s.drop_last(), i, b);
        assert(s.update(i, b).drop_last() =~= s.drop_last().update(i, b));
    }
}

/// A mask with no set entry has count zero.
pub proof fn lemma_count_true_all_false(s: Seq<bool>)
    requires
        forall|i: int| 0 <= i < s.len() ==> !(#[trigger] s[i]),
    ensures
        count_true(s) == 0,
    decreases s.len(),
{
    if s.len() > 0 {
        lemma_count_true_all_false(s.drop_last());
    }
}

/// A set entry makes the count positive.
pub proof fn lemma_count_true_pos(s: Seq<bool>, i: int)
    requires
        0 <= i < s.len(),
        s[i],
    ensures
        count_true(s) >= 1,
    decreases s.len(),
{
    if i == s.len() - 1 {
        lemma_count_true_bounds(s.drop_last());
    } else {
        lemma_count_true_pos(s.drop_last(), i);
        lemma_count_true_bounds(s.drop_last());
    }
}

/// In a mask with count one, the set entry is unique.
pub proof fn lemma_count_true_unique(s: Seq<bool>, i: int, j: int)
    requires
        count_true(s) == 1,
        0 <= i < s.len(),
        0 <= j < s.len(),
        s[i],
        s[j],
    ensures
        i == j,
{
    if i != j {
        lemma_count_true_update(s, i, false);
        lemma_count_true_pos(s.update(i, false), j);
    }
}

/// A cell's uncertain state: the set of digits still possible at its
/// position.  Entry `v - 1` of the mask says whether digit `v` remains
/// possible.  The domain only ever shrinks.
#[derive(Debug)]
pub struct UncertainCell {
    pub poss: Vec<bool>,
}

impl Clone for UncertainCell {
    fn clone(&self) -> (r: Self)
        ensures
            r.poss@ == self.poss@,
    {
        UncertainCell { poss: self.poss.clone() }
    }
}

impl UncertainCell {
    /// The mask covers exactly the nine digits.
    pub open spec fn wf(self) -> bool {
        self.poss@.len() == 9
    }

    /// Digit `v` is still in the domain.
    pub open spec fn has(self, v: int) -> bool {
        1 <= v <= 9 && self.poss@[v - 1]
    }

    /// The domain's size.
    pub open spec fn entropy_spec(self) -> int {
        count_true(self.poss@)
    }

    /// All nine digits are still possible.
    pub open spec fn is_full(self) -> bool {
        self.wf() && forall|i: int| 0 <= i < 9 ==> self.poss@[i]
    }

    /// A fresh uncertain cell: every digit possible.
    pub fn new() -> (r: Self)
        ensures
            r.is_full(),
    {
        UncertainCell { poss: vec![true;9] }
    }

    /// The number of digits still possible.
    pub fn entropy(&self) -> (r: usize)
        requires
            self.wf(),
        ensures
            r == self.entropy_spec(),
    {
        let mut count: usize = 0;
        let mut i: usize = 0;
        while i < 9
            invariant
                0 <= i <= 9,
                self.wf(),
                count == count_true(self.poss@.take(i as int)),
                count <= i,
            decreases 9 - i,
        {
            proof {
                lemma_count_true_take_step(self.poss@, i as int);
            }
            if self.poss[i] {
                count = count + 1;
            }
            i = i + 1;
        }
        proof {
            assert(self.poss@.take(9) =~= self.poss@);
        }
        count
    }

    /// Removes a digit from the domain; removing an absent digit changes
    /// nothing.
    pub fn exclude(&mut self, num: Number)
        requires
            old(self).wf(),
            num.wf(),
        ensures
            final(self).poss@ == old(self).poss@.update(num@ - 1, false),
    {
        let idx: usize = (num.0 - 1) as usize;
        self.poss.set(idx, false);
    }

    /// The sole remaining digit, if the domain has shrunk to exactly one.
    pub fn try_collapse(&self) -> (r: Option<Number>)
        requires
            self.wf(),
        ensures
            r is Some <==> self.entropy_spec() == 1,
            r is Some ==> r->Some_0.wf() && self.has(r->Some_0@),
            r is Some ==> forall|w: int| self.has(w) ==> w == r->Some_0@,
    {
        if self.entropy() != 1 {
            return None;
        }
        let n = self.first_possible();
        proof {
            assert forall|w: int| self.has(w) implies w == n@ by {
                lemma_count_true_unique(self.poss@, w - 1, n@ - 1);
            }
        }
        Some(n)
    }

    /// Some digit of a non-empty domain: by policy, the smallest.
    pub fn some_element(&self) -> (r: Option<Number>)
        requires
            self.wf(),
        ensures
            r is Some <==> self.entropy_spec() != 0,
            r is Some ==> {
                &&& r->Some_0.wf()
                &&& self.has(r->Some_0@)
                &&& forall|w: int| self.has(w) ==> r->Some_0@ <= w
            },
    {
        let mut i: usize = 0;
        while i < 9
            invariant
                0 <= i <= 9,
                self.wf(),
                forall|j: int| 0 <= j < i ==> !self.poss@[j],
            decreases 9 - i,
        {
            if self.poss[i] {
                proof {
                    lemma_count_true_pos(self.poss@, i as int);
                }
                return Some(Number((i + 1) as u8));
            }
            i = i + 1;
        }
        proof {
            lemma_count_true_all_false(self.poss@);
        }
        None
    }

    /// The sole remaining digit of a domain of size one.
    pub fn collapse(&self) -> (r: Number)
        requires
            self.wf(),
            self.entropy_spec() == 1,
        ensures
            r.wf(),
            self.has(r@),
            forall|w: int| self.has(w) ==> w == r@,
    {
        let n = self.first_possible();
        proof {
            assert forall|w: int| self.has(w) implies w == n@ by {
                lemma_count_true_unique(self.poss@, w - 1, n@ - 1);
            }
        }
        n
    }

    /// The smallest digit still possible; the domain must be non-empty.
    fn first_possible(&self) -> (r: Number)
        requires
            self.wf(),
            self.entropy_spec() != 0,
        ensures
            r.wf(),
            self.has(r@),
            forall|w: int| self.has(w) ==> r@ <= w,
    {
        let mut i: usize = 0;
        while i < 9
            invariant
                0 <= i <= 9,
                self.wf(),
                forall|j: int| 0 <= j < i ==> !self.poss@[j],
            decreases 9 - i,
        {
            if self.poss[i] {
                return Number((i + 1) as u8);
            }
            i = i + 1;
        }
        proof {
            lemma_count_true_all_false(self.poss@);
            assert(false);
        }
        Number(1)
    }
}

impl Default for UncertainCell {
    fn default() -> (r: Self)
        ensures
            r.is_full(),
    {
        UncertainCell::new()
    }
}

/// Excluding a digit already absent from a domain leaves the domain
/// unchanged: the exclusion step is idempotent.
pub proof fn lemma_exclude_absent_keeps_domain(u: UncertainCell, v: int)
    requires
        u.wf(),
        1 <= v <= 9,
        !u.has(v),
    ensures
        u.poss@.update(v - 1, false) == u.poss@,
{
    assert(u.poss@.update(v - 1, false) =~= u.poss@);
}

/// A grid cell: collapsed to its final digit, or still uncertain.
#[derive(Debug)]
pub enum NumCell {
    Collapsed(Number),
    Uncertain(UncertainCell),
}

impl Clone for NumCell {
    fn clone(&self) -> (r: Self)
        ensures
            cell_eq(r, *self),
    {
        match self {
            NumCell::Collapsed(n) => NumCell::Collapsed(*n),
            NumCell::Uncertain(u) => NumCell::Uncertain(u.clone()),
        }
    }
}

/// The two cells hold the same state: the same digit, or the same domain.
pub open spec fn cell_eq(a: NumCell, b: NumCell) -> bool {
    match (a, b) {
        (NumCell::Collapsed(n1), NumCell::Collapsed(n2)) => n1 == n2,
        (NumCell::Uncertain(u1), NumCell::Uncertain(u2)) => u1.poss@ == u2.poss@,
        _ => false,
    }
}

/// `after` is `before` with digit `v` removed from its domain: a collapsed
/// cell is unaffected, an uncertain cell loses `v`.
pub open spec fn excludes_to(before: NumCell, after: NumCell, v: int) -> bool {
    match (before, after) {
        (NumCell::Collapsed(n1), NumCell::Collapsed(n2)) => n2 == n1,
        (NumCell::Uncertain(u1), NumCell::Uncertain(u2)) => u2.poss@ == u1.poss@.update(
            v - 1,
            false,
        ),
        _ => false,
    }
}

/// Exclusion steps with the same digit compose: a second exclusion changes
/// nothing more.
pub proof fn lemma_excludes_to_trans(a: NumCell, b: NumCell, c: NumCell, v: int)
    requires
        a.wf(),
        1 <= v <= 9,
        excludes_to(a, b, v),
        excludes_to(b, c, v),
    ensures
        excludes_to(a, c, v),
{
    match (a, b, c) {
        (NumCell::Uncertain(u1), NumCell::Uncertain(u2), NumCell::Uncertain(u3)) => {
            assert(u2.poss@ == u1.poss@.update(v - 1, false));
            assert(u3.poss@ =~= u1.poss@.update(v - 1, false));
        },
        _ => {},
    }
}

impl NumCell {
    /// Every cell state is well formed.
    pub open spec fn wf(self) -> bool {
        match self {
            NumCell::Collapsed(n) => n.wf(),
            NumCell::Uncertain(u) => u.wf(),
        }
    }

    /// A fresh cell: uncertain, with every digit possible.
    pub fn new() -> (r: Self)
        ensures
            r is Uncertain && r->Uncertain_0.is_full(),
    {
        NumCell::Uncertain(UncertainCell::new())
    }

    pub fn is_collapsed(&self) -> (r: bool)
        ensures
            r == (*self is Collapsed),
    {
        matches!(self, NumCell::Collapsed(_))
    }

    /// The uncertain state, if the cell has not collapsed.
    pub fn uncertain(&self) -> (r: Option<&UncertainCell>)
        ensures
            r is Some <==> *self is Uncertain,
            r is Some ==> *r->Some_0 == self->Uncertain_0,
    {
        match self {
            NumCell::Uncertain(c) => Some(c),
            _ => None,
        }
    }

    /// The cell's digit, if it has collapsed.
    pub fn number(&self) -> (r: Option<Number>)
        ensures
            r is Some <==> *self is Collapsed,
            r is Some ==> r->Some_0 == self->Collapsed_0,
    {
        match self {
            NumCell::Collapsed(n) => Some(*n),
            _ => None,
        }
    }

    /// Applies `f` to the uncertain state, if the cell has not collapsed.
    pub fn if_uncertain<T, F: FnMut(&UncertainCell) -> T>(&self, f: F) -> (r: Option<T>)
        requires
            forall|c: &UncertainCell| call_requires(f, (c,)),
        ensures
            r is Some <==> *self is Uncertain,
            *self is Uncertain ==> call_ensures(f, (&self->Uncertain_0,), r->Some_0),
    {
        match self {
            NumCell::Uncertain(c) => {
                let mut g = f;
                Some(g(c))
            },
            _ => None,
        }
    }

    /// Removes a digit from the domain if the cell is uncertain; a
    /// collapsed cell is unaffected.
    pub fn exclude(&mut self, num: Number)
        requires
            old(self).wf(),
            num.wf(),
        ensures
            excludes_to(*old(self), *final(self), num@),
    {
        match self {
            NumCell::Uncertain(u) => u.exclude(num),
            NumCell::Collapsed(_) => (),
        }
    }

    /// Parses a grid token: a recognized blank placeholder gives a fresh
    /// uncertain cell, anything else must parse as a digit.
    pub fn parse(s: &str) -> (r: Result<NumCell, ParseNumberError>)
        ensures
            parse_cell_result(s.spec_bytes(), r),
    {
        let bytes: &[u8] = s.as_bytes();
        if bytes.len() == 1 && (bytes[0] == 61u8 || bytes[0] == 45u8 || bytes[0] == 46u8
            || bytes[0] == 44u8) {
            return Ok(NumCell::new());
        }
        match Number::parse(s) {
            Ok(n) => Ok(NumCell::Collapsed(n)),
            Err(e) => Err(e),
        }
    }
}

impl core::str::FromStr for NumCell {
    type Err = ParseNumberError;

    fn from_str(s: &str) -> Result<NumCell, ParseNumberError> {
        NumCell::parse(s)
    }
}

/// The token is one of the blank placeholders `=`, `-`, `.` or `,`.
pub open spec fn is_blank_token(s: Seq<u8>) -> bool {
    s.len() == 1 && (s[0] == 61u8 || s[0] == 45u8 || s[0] == 46u8 || s[0] == 44u8)
}

/// What `NumCell::parse` returns for a token with the given bytes.
pub open spec fn parse_cell_result(s: Seq<u8>, r: Result<NumCell, ParseNumberError>) -> bool {
    if is_blank_token(s) {
        r is Ok && r->Ok_0 is Uncertain && r->Ok_0->Uncertain_0.is_full()
    } else {
        let d = digits_of(s);
        let v = token_value(d);
        if !is_number_token(s) || v > 255 {
            r == Result::<NumCell, ParseNumberError>::Err(ParseNumberError::InvalidNumber)
        } else if 1 <= v <= 9 {
            r is Ok && r->Ok_0 is Collapsed && r->Ok_0->Collapsed_0.wf()
                && r->Ok_0->Collapsed_0@ == v
        } else {
            r == Result::<NumCell, ParseNumberError>::Err(ParseNumberError::OutOfRange(v as u8))
        }
    }
}

} // verus!
