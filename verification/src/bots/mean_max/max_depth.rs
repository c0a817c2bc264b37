//! Depth limits of a search: a bound in `0..=254`, or none.
use vstd::prelude::*;

verus! {

/// A number that is never zero.
#[derive(Copy, Clone, Debug, PartialEq, Eq, PartialOrd, Ord, Hash)]
pub struct DepthBound(u8);

impl View for DepthBound {
    type V = u8;

    closed spec fn view(&self) -> u8 {
        self.0
    }
}

impl DepthBound {
    #[verifier::type_invariant]
    spec fn is_nonzero(self) -> bool {
        self.0 != 0
    }

    /// `n`, unless it is zero.
    pub fn new(n: u8) -> (r: Option<Self>)
        ensures
            r is Some <==> n != 0,
            r matches Some(b) ==> b@ == n,
    {
        if n == 0 {
            None
        } else {
            Some(DepthBound(n))
        }
    }

    /// The number.
    pub fn get(self) -> (n: u8)
        ensures
            n == self@,
            n != 0,
    {
        proof {
            use_type_invariant(&self);
        }
        self.0
    }
}

/// The deepest level a search may reach.
#[derive(Copy, Clone, Debug, PartialEq, Eq, PartialOrd, Ord, Hash)]
pub enum MaxDepth {
    /// Any of `0`, `1`, ..., `254`, held as one more than the level.
    Bounded(DepthBound),
    /// No limit.
    Unlimited,
}

impl MaxDepth {
    /// The deepest level, or `None` when there is no limit.
    pub open spec fn level(self) -> Option<int> {
        match self {
            MaxDepth::Bounded(b) => Some(b@ - 1),
            MaxDepth::Unlimited => None,
        }
    }

    /// The limit at level `max_value`, as [`MaxDepth::new`] builds it.
    pub closed spec fn spec_new(max_value: u8) -> Self {
        if max_value < u8::MAX {
            MaxDepth::Bounded(DepthBound((max_value + 1) as u8))
        } else {
            MaxDepth::Unlimited
        }
    }

    /// The deepest level as a byte, or 255 when there is no limit, as
    /// [`MaxDepth::max_u8`] gives it.
    pub open spec fn spec_max_u8(self) -> int {
        match self.level() {
            Some(level) => level,
            None => 255,
        }
    }

    /// The limit at level `max_value`; no limit for 255, which has no bound.
    pub fn new(max_value: u8) -> (r: Self)
        ensures
            r == Self::spec_new(max_value),
            max_value < u8::MAX ==> r.level() == Some(max_value as int),
            max_value == u8::MAX ==> r == MaxDepth::Unlimited,
    {
        match max_value.checked_add(1) {
            Some(bound) => match DepthBound::new(bound) {
                Some(bound) => MaxDepth::Bounded(bound),
                None => MaxDepth::Unlimited,
            },
            None => MaxDepth::Unlimited,
        }
    }

    /// The bound, one more than the deepest level, if there is one.
    pub fn bound(self) -> (r: Option<DepthBound>)
        ensures
            r == match self {
                MaxDepth::Bounded(b) => Some(b),
                MaxDepth::Unlimited => None::<DepthBound>,
            },
    {
        match self {
            MaxDepth::Bounded(bound) => Some(bound),
            MaxDepth::Unlimited => None,
        }
    }

    /// The deepest level, or 255 when there is no limit.
    pub fn max_u8(self) -> (r: u8)
        ensures
            r == self.spec_max_u8(),
    {
        match self.bound() {
            Some(bound) => bound.get() - 1,
            None => u8::MAX,
        }
    }

    /// There is no limit.
    pub fn is_unlimited(&self) -> (r: bool)
        ensures
            r == (*self is Unlimited),
    {
        match self {
            MaxDepth::Unlimited => true,
            MaxDepth::Bounded(_) => false,
        }
    }

    /// The limit `rhs` levels deeper; no limit when the bound passes 255.
    pub fn add(self, rhs: u8) -> (r: Self)
        ensures
            r.level() == match self.level() {
                Some(level) => if level + 1 + rhs <= u8::MAX {
                    Some(level + rhs)
                } else {
                    None
                },
                None => None,
            },
    {
        match self.bound() {
            Some(bound) => {
                match bound.get().checked_add(rhs) {
                    Some(sum) => match DepthBound::new(sum) {
                        Some(sum) => MaxDepth::Bounded(sum),
                        None => MaxDepth::Unlimited,
                    },
                    None => MaxDepth::Unlimited,
                }
            },
            None => MaxDepth::Unlimited,
        }
    }

    /// Moves the limit `rhs` levels deeper, as [`MaxDepth::add`] does.
    pub fn add_assign(&mut self, rhs: u8)
        ensures
            *final(self) == old(self).add_spec(rhs),
    {
        *self = self.add(rhs);
    }

    /// The limit `rhs` levels deeper, as [`MaxDepth::add`] computes it.
    pub closed spec fn add_spec(self, rhs: u8) -> Self {
        match self {
            MaxDepth::Bounded(b) => if b@ + rhs <= u8::MAX {
                MaxDepth::Bounded(DepthBound((b@ + rhs) as u8))
            } else {
                MaxDepth::Unlimited
            },
            MaxDepth::Unlimited => MaxDepth::Unlimited,
        }
    }

    /// The limit `rhs` levels shallower: `None` when the bound would fall to 0
    /// or below, that is when the level would fall below 0; no limit stays no
    /// limit.
    pub fn sub(self, rhs: u8) -> (r: Option<Self>)
        ensures
            self is Unlimited ==> r == Some(MaxDepth::Unlimited),
            self.level() matches Some(level) ==> (r is None <==> level - rhs < 0),
            self.level() matches Some(level) ==> (level - rhs >= 0 ==> (r matches Some(d) && d.level() == Some(level - rhs))),
    {
        match self.bound() {
            Some(bound) => match DepthBound::new(bound.get().saturating_sub(rhs)) {
                Some(b) => Some(MaxDepth::Bounded(b)),
                None => None,
            },
            None => Some(MaxDepth::Unlimited),
        }
    }

    /// Moves the limit `rhs` levels deeper, as [`MaxDepth::add`] does: this
    /// in-place form of the limit's subtraction adds.
    pub fn sub_assign(&mut self, rhs: u8)
        ensures
            *final(self) == old(self).add_spec(rhs),
    {
        *self = self.add(rhs);
    }
}

/// The digit `d` (0 to 9) as a character.
pub open spec fn digit_char(d: nat) -> char {
    ((d + 48) as u8) as char
}

/// `n` in decimal, without leading zeros.
pub open spec fn decimal(n: nat) -> Seq<char>
    decreases n,
{
    if n < 10 {
        seq![digit_char(n)]
    } else {
        decimal(n / 10).push(digit_char(n % 10))
    }
}

/// A depth limit as text: its deepest level in decimal, or "∞" when there is
/// no limit.
pub open spec fn depth_text(depth: MaxDepth) -> Seq<char> {
    match depth.level() {
        Some(level) => decimal(level as nat),
        None => "∞"@,
    }
}

impl MaxDepth {
    /// The limit as text: its deepest level in decimal, or "∞" when there is
    /// no limit.
    pub fn text(&self) -> (s: String)
        ensures
            s@ == depth_text(*self),
    {
        match self {
            MaxDepth::Bounded(_) => {
                let n = self.max_u8();
                let mut chars: Vec<char> = Vec::new();
                if n >= 100 {
                    chars.push(((n / 100) + 48) as char);
                }
                if n >= 10 {
                    chars.push((((n / 10) % 10) + 48) as char);
                }
                chars.push(((n % 10) + 48) as char);
                proof {
                    reveal_with_fuel(decimal, 3);
                    let m = n as nat;
                    if m >= 100 {
                        assert(decimal(m / 10) == decimal(m / 100).push(digit_char((m / 10) % 10)));
                        assert(chars@ =~= decimal(m));
                    } else if m >= 10 {
                        assert(chars@ =~= decimal(m));
                    } else {
                        assert(chars@ =~= decimal(m));
                    }
                }
                crate::game::twenty_forty_eight::board::string_from_chars(chars)
            },
            MaxDepth::Unlimited => String::from_str("∞"),
        }
    }
}

impl Default for MaxDepth {
    /// No limit.
    fn default() -> (r: Self)
        ensures
            r == MaxDepth::Unlimited,
    {
        MaxDepth::Unlimited
    }
}

/// Moving a limit `rhs` levels deeper adds `rhs` to its level, and leaves no
/// limit where the level would pass 254, or where there was none.
pub proof fn lemma_add_spec_level(m: MaxDepth, rhs: u8)
    ensures
        m.add_spec(rhs).level() == match m.level() {
            Some(level) => if level + 1 + rhs <= u8::MAX {
                Some(level + rhs)
            } else {
                None
            },
            None => None,
        },
{
}

/// Two limits at the same level are the same limit.
pub proof fn lemma_level_determines(a: MaxDepth, b: MaxDepth)
    requires
        a.level() == b.level(),
    ensures
        a == b,
{
}

/// [`MaxDepth::new`] and [`MaxDepth::max_u8`] undo each other: the limit
/// built from `v` gives back `v`, and every limit is the one built from its
/// byte.
pub proof fn lemma_new_max_u8_round_trip(v: u8, m: MaxDepth)
    requires
        m.level() matches Some(l) ==> l >= 0,
    ensures
        MaxDepth::spec_new(v).spec_max_u8() == v,
        MaxDepth::spec_new(m.spec_max_u8() as u8) == m,
{
    if let MaxDepth::Bounded(b) = m {
        assert(b.0 >= 1);
        assert(DepthBound(((b.0 - 1) as u8 + 1) as u8) == b);
    }
}

} // verus!
