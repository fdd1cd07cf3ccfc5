use vstd::prelude::*;

verus! {

/// One of the eight grid-adjacency directions.
#[derive(Clone, Copy, PartialEq, Eq, Structural, Debug)]
pub enum Direction {
    Left,
    Right,
    Up,
    Down,
    LeftUp,
    LeftDown,
    RightUp,
    RightDown,
}

/// The bit that stands for `d` in a `DirectionSet`.
pub open spec fn dir_bit(d: Direction) -> u8 {
    match d {
        Direction::Left => 1,
        Direction::Right => 2,
        Direction::Up => 4,
        Direction::Down => 8,
        Direction::LeftUp => 16,
        Direction::LeftDown => 32,
        Direction::RightUp => 64,
        Direction::RightDown => 128,
    }
}

/// The directions in their fixed enumeration order.
pub open spec fn all_directions() -> Seq<Direction> {
    seq![
        Direction::Left,
        Direction::Right,
        Direction::Up,
        Direction::Down,
        Direction::LeftUp,
        Direction::LeftDown,
        Direction::RightUp,
        Direction::RightDown,
    ]
}

/// A set of directions, one bit per direction.
#[derive(Clone, Copy, PartialEq, Eq, Structural, Debug)]
pub struct DirectionSet(pub u8);

impl DirectionSet {
    /// Whether `d` belongs to the set.
    pub open spec fn has(self, d: Direction) -> bool {
        self.0 & dir_bit(d) != 0
    }

    pub open spec fn view(self) -> Set<Direction> {
        Set::new(|d: Direction| self.has(d))
    }

    /// The empty set.
    pub fn new() -> (r: Self)
        ensures
            forall|d: Direction| !r.has(d),
    {
        proof {
            assert forall|d: Direction| !DirectionSet(0).has(d) by {
                lemma_bit_of_zero(dir_bit(d));
            }
        }
        DirectionSet(0)
    }

    /// The set of the listed directions; repeats are harmless.
    pub fn from_directions(directions: &[Direction]) -> (r: Self)
        ensures
            forall|d: Direction| r.has(d) <==> directions@.contains(d),
    {
        let mut set: u8 = 0;
        let mut i: usize = 0;
        proof {
            assert forall|d: Direction| !(set & dir_bit(d) != 0) by {
                lemma_bit_of_zero(dir_bit(d));
            }
            assert(directions@.subrange(0, 0) =~= Seq::<Direction>::empty());
        }
        while i < directions.len()
            invariant
                0 <= i <= directions@.len(),
                forall|d: Direction| (set & dir_bit(d) != 0) <==> directions@.subrange(0, i as int).contains(d),
            decreases directions@.len() - i,
        {
            let dir = directions[i];
            let b = bit_of(dir);
            proof {
                assert forall|d: Direction| ((set | b) & dir_bit(d) != 0) <==> directions@.subrange(0, i + 1).contains(d) by {
                    lemma_bit_of_or(set, b, dir_bit(d));
                    lemma_bits_distinct(dir, d);
                    let prefix = directions@.subrange(0, i as int);
                    assert(directions@.subrange(0, i + 1) =~= prefix.push(dir));
                    assert(prefix.push(dir).contains(d) <==> (prefix.contains(d) || d == dir)) by {
                        if prefix.push(dir).contains(d) {
                            let k = choose|k: int| 0 <= k < prefix.len() + 1 && prefix.push(dir)[k] == d;
                            if k < prefix.len() {
                                assert(prefix[k] == d);
                            }
                        }
                        if d == dir {
                            assert(prefix.push(dir)[prefix.len() as int] == d);
                        }
                        if prefix.contains(d) {
                            let k = choose|k: int| 0 <= k < prefix.len() && prefix[k] == d;
                            assert(prefix.push(dir)[k] == d);
                        }
                    }
                }
            }
            set = set | b;
            i = i + 1;
        }
        proof {
            assert(directions@.subrange(0, directions@.len() as int) == directions@);
        }
        DirectionSet(set)
    }

    /// Whether `direction` belongs to the set.
    pub fn contains(&self, direction: Direction) -> (r: bool)
        ensures
            r == self.has(direction),
    {
        self.0 & bit_of(direction) != 0
    }
}

/// The bit of `d`, computed.
fn bit_of(d: Direction) -> (r: u8)
    ensures
        r == dir_bit(d),
{
    match d {
        Direction::Left => 1,
        Direction::Right => 2,
        Direction::Up => 4,
        Direction::Down => 8,
        Direction::LeftUp => 16,
        Direction::LeftDown => 32,
        Direction::RightUp => 64,
        Direction::RightDown => 128,
    }
}

pub open spec fn single_bit(m: u8) -> bool {
    m == 1 || m == 2 || m == 4 || m == 8 || m == 16 || m == 32 || m == 64 || m == 128
}

proof fn lemma_bit_of_zero(m: u8)
    ensures
        0u8 & m == 0,
{
    assert(0u8 & m == 0) by (bit_vector);
}

proof fn lemma_bit_of_or(a: u8, b: u8, m: u8)
    ensures
        ((a | b) & m != 0) <==> (a & m != 0 || b & m != 0),
{
    assert(((a | b) & m != 0) <==> (a & m != 0 || b & m != 0)) by (bit_vector);
}

proof fn lemma_bit_of_and(a: u8, b: u8, m: u8)
    requires
        single_bit(m),
    ensures
        ((a & b) & m != 0) <==> (a & m != 0 && b & m != 0),
{
    assert(((a & b) & m != 0) <==> (a & m != 0 && b & m != 0)) by (bit_vector)
        requires
            m == 1 || m == 2 || m == 4 || m == 8 || m == 16 || m == 32 || m == 64 || m == 128,
    ;
}

proof fn lemma_bit_of_xor(a: u8, b: u8, m: u8)
    requires
        single_bit(m),
    ensures
        ((a ^ b) & m != 0) <==> ((a & m != 0) != (b & m != 0)),
{
    assert(((a ^ b) & m != 0) <==> ((a & m != 0) != (b & m != 0))) by (bit_vector)
        requires
            m == 1 || m == 2 || m == 4 || m == 8 || m == 16 || m == 32 || m == 64 || m == 128,
    ;
}

proof fn lemma_bit_of_not(a: u8, m: u8)
    requires
        single_bit(m),
    ensures
        (!a & m != 0) <==> !(a & m != 0),
{
    assert((!a & m != 0) <==> !(a & m != 0)) by (bit_vector)
        requires
            m == 1 || m == 2 || m == 4 || m == 8 || m == 16 || m == 32 || m == 64 || m == 128,
    ;
}

proof fn lemma_bits_distinct(a: Direction, b: Direction)
    ensures
        single_bit(dir_bit(a)),
        (dir_bit(a) & dir_bit(b) != 0) <==> a == b,
        (dir_bit(a) | 0u8) == dir_bit(a),
{
    let x = dir_bit(a);
    let y = dir_bit(b);
    assert((x & y != 0) <==> x == y) by (bit_vector)
        requires
            x == 1 || x == 2 || x == 4 || x == 8 || x == 16 || x == 32 || x == 64 || x == 128,
            y == 1 || y == 2 || y == 4 || y == 8 || y == 16 || y == 32 || y == 64 || y == 128,
    ;
    assert((x | 0u8) == x) by (bit_vector);
}

/// The intersection of two sets.
impl core::ops::BitAnd for DirectionSet {
    type Output = Self;

    fn bitand(self, rhs: Self) -> (r: Self)
        ensures
            forall|d: Direction| r.has(d) <==> (self.has(d) && rhs.has(d)),
    {
        proof {
            assert forall|d: Direction| (DirectionSet(self.0 & rhs.0).has(d) <==> (self.has(d) && rhs.has(d))) by {
                lemma_bits_distinct(d, d);
                lemma_bit_of_and(self.0, rhs.0, dir_bit(d));
            }
        }
        DirectionSet(self.0 & rhs.0)
    }
}

impl vstd::std_specs::ops::BitAndSpecImpl for DirectionSet {
    open spec fn obeys_bitand_spec() -> bool {
        true
    }

    open spec fn bitand_req(self, rhs: Self) -> bool {
        true
    }

    open spec fn bitand_spec(self, rhs: Self) -> Self {
        DirectionSet(self.0 & rhs.0)
    }
}

/// The union of two sets.
impl core::ops::BitOr for DirectionSet {
    type Output = Self;

    fn bitor(self, rhs: Self) -> (r: Self)
        ensures
            forall|d: Direction| r.has(d) <==> (self.has(d) || rhs.has(d)),
    {
        proof {
            assert forall|d: Direction| (DirectionSet(self.0 | rhs.0).has(d) <==> (self.has(d) || rhs.has(d))) by {
                lemma_bit_of_or(self.0, rhs.0, dir_bit(d));
            }
        }
        DirectionSet(self.0 | rhs.0)
    }
}

impl vstd::std_specs::ops::BitOrSpecImpl for DirectionSet {
    open spec fn obeys_bitor_spec() -> bool {
        true
    }

    open spec fn bitor_req(self, rhs: Self) -> bool {
        true
    }

    open spec fn bitor_spec(self, rhs: Self) -> Self {
        DirectionSet(self.0 | rhs.0)
    }
}

/// The symmetric difference of two sets.
impl core::ops::BitXor for DirectionSet {
    type Output = Self;

    fn bitxor(self, rhs: Self) -> (r: Self)
        ensures
            forall|d: Direction| r.has(d) <==> (self.has(d) != rhs.has(d)),
    {
        proof {
            assert forall|d: Direction| (DirectionSet(self.0 ^ rhs.0).has(d) <==> (self.has(d) != rhs.has(d))) by {
                lemma_bits_distinct(d, d);
                lemma_bit_of_xor(self.0, rhs.0, dir_bit(d));
            }
        }
        DirectionSet(self.0 ^ rhs.0)
    }
}

impl vstd::std_specs::ops::BitXorSpecImpl for DirectionSet {
    open spec fn obeys_bitxor_spec() -> bool {
        true
    }

    open spec fn bitxor_req(self, rhs: Self) -> bool {
        true
    }

    open spec fn bitxor_spec(self, rhs: Self) -> Self {
        DirectionSet(self.0 ^ rhs.0)
    }
}

/// The complement of a set among the eight directions.
impl core::ops::Not for DirectionSet {
    type Output = Self;

    fn not(self) -> (r: Self)
        ensures
            forall|d: Direction| r.has(d) <==> !self.has(d),
    {
        proof {
            assert forall|d: Direction| (DirectionSet(!self.0).has(d) <==> !self.has(d)) by {
                lemma_bits_distinct(d, d);
                lemma_bit_of_not(self.0, dir_bit(d));
            }
        }
        DirectionSet(!self.0)
    }
}

impl vstd::std_specs::ops::NotSpecImpl for DirectionSet {
    open spec fn obeys_not_spec() -> bool {
        true
    }

    open spec fn not_req(self) -> bool {
        true
    }

    open spec fn not_spec(self) -> Self {
        DirectionSet(!self.0)
    }
}

} // verus!
