//! Type-safe identifiers for ships, berths, cranes and players.

use vstd::prelude::*;
use vstd::string::StringExecFns;

verus! {

/// Decimal digits of a number, most significant first.
pub open spec fn spec_decimal(n: int) -> Seq<char>
    decreases n,
{
    if n < 10 {
        seq![digit_char(n)]
    } else {
        spec_decimal(n / 10).push(digit_char(n % 10))
    }
}

/// The character for one decimal digit.
pub open spec fn digit_char(d: int) -> char {
    if d == 0 {
        '0'
    } else if d == 1 {
        '1'
    } else if d == 2 {
        '2'
    } else if d == 3 {
        '3'
    } else if d == 4 {
        '4'
    } else if d == 5 {
        '5'
    } else if d == 6 {
        '6'
    } else if d == 7 {
        '7'
    } else if d == 8 {
        '8'
    } else {
        '9'
    }
}

/// One decimal digit as a string slice.
fn digit_str(d: usize) -> (r: &'static str)
    requires
        d < 10,
    ensures
        r@ == seq![digit_char(d as int)],
{
    proof {
        reveal_strlit("0");
        reveal_strlit("1");
        reveal_strlit("2");
        reveal_strlit("3");
        reveal_strlit("4");
        reveal_strlit("5");
        reveal_strlit("6");
        reveal_strlit("7");
        reveal_strlit("8");
        reveal_strlit("9");
    }
    let r = if d == 0 {
        "0"
    } else if d == 1 {
        "1"
    } else if d == 2 {
        "2"
    } else if d == 3 {
        "3"
    } else if d == 4 {
        "4"
    } else if d == 5 {
        "5"
    } else if d == 6 {
        "6"
    } else if d == 7 {
        "7"
    } else if d == 8 {
        "8"
    } else {
        "9"
    };
    proof {
        assert(r@ =~= seq![digit_char(d as int)]);
    }
    r
}

/// A number rendered in decimal.
pub fn decimal_string(n: usize) -> (r: String)
    ensures
        r@ == spec_decimal(n as int),
    decreases n,
{
    if n < 10 {
        digit_str(n).to_owned()
    } else {
        let mut s = decimal_string(n / 10);
        s.append(digit_str(n % 10));
        proof {
            assert(s@ =~= spec_decimal(n as int));
        }
        s
    }
}

/// Identifier of a ship.
#[derive(Debug, Clone, Copy, PartialEq, Eq, Hash, Structural)]
pub struct ShipId(pub usize);

impl ShipId {
    pub fn new(id: usize) -> (r: Self)
        ensures
            r.0 == id,
    {
        ShipId(id)
    }

    /// Human-readable label, "Ship#" followed by the number.
    pub fn to_string(&self) -> (r: String)
        ensures
            r@ == "Ship#"@ + spec_decimal(self.0 as int),
    {
        let mut s = "Ship#".to_owned();
        let d = decimal_string(self.0);
        s.append(d.as_str());
        s
    }
}

/// Identifier of a berth.
#[derive(Debug, Clone, Copy, PartialEq, Eq, Hash, Structural)]
pub struct BerthId(pub usize);

impl BerthId {
    pub fn new(id: usize) -> (r: Self)
        ensures
            r.0 == id,
    {
        BerthId(id)
    }

    /// Human-readable label, "Berth#" followed by the number.
    pub fn to_string(&self) -> (r: String)
        ensures
            r@ == "Berth#"@ + spec_decimal(self.0 as int),
    {
        let mut s = "Berth#".to_owned();
        let d = decimal_string(self.0);
        s.append(d.as_str());
        s
    }
}

/// Identifier of a crane.
#[derive(Debug, Clone, Copy, PartialEq, Eq, Hash, Structural)]
pub struct CraneId(pub usize);

impl CraneId {
    pub fn new(id: usize) -> (r: Self)
        ensures
            r.0 == id,
    {
        CraneId(id)
    }

    /// Human-readable label, "Crane#" followed by the number.
    pub fn to_string(&self) -> (r: String)
        ensures
            r@ == "Crane#"@ + spec_decimal(self.0 as int),
    {
        let mut s = "Crane#".to_owned();
        let d = decimal_string(self.0);
        s.append(d.as_str());
        s
    }
}

/// Identifier of a player, carrying the 128 raw bits of a random UUID.
#[derive(Debug, Clone, Copy, PartialEq, Eq, Hash, Structural)]
pub struct PlayerId(pub u128);

impl PlayerId {
    /// Relies on uuid::Uuid::new_v4 for a freshly drawn random identifier;
    /// nothing is assumed about the value that comes back.
    #[verifier::external_body]
    pub fn new() -> Self {
        PlayerId(uuid::Uuid::new_v4().as_u128())
    }

    pub fn from_bits(bits: u128) -> (r: Self)
        ensures
            r.0 == bits,
    {
        PlayerId(bits)
    }
}

impl Default for PlayerId {
    fn default() -> Self {
        Self::new()
    }
}

} // verus!
