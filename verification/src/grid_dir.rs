//! The four directions between the cells of a grid.

use vstd::prelude::*;
use vstd::string::StrSliceExecFns;
use vstd::string::StringExecFns;

verus! {

/// A direction from a cell to one of its geometric neighbors.
#[derive(Debug, PartialEq, Eq, Structural, Copy, Clone)]
pub enum GridDirection {
    North,
    South,
    East,
    West,
}

/// The message for a text that names no direction.
pub open spec fn direction_error_text(dir: Seq<char>) -> Seq<char> {
    "expected direction, got \""@ + dir + "\""@
}

impl GridDirection {
    /// The name of the direction, in lower case.
    pub open spec fn name_of(self) -> Seq<char> {
        match self {
            GridDirection::North => "north"@,
            GridDirection::South => "south"@,
            GridDirection::East => "east"@,
            GridDirection::West => "west"@,
        }
    }

    /// The name of the direction, in lower case.
    pub fn name(&self) -> (r: &'static str)
        ensures
            r@ == self.name_of(),
    {
        match self {
            GridDirection::North => "north",
            GridDirection::South => "south",
            GridDirection::East => "east",
            GridDirection::West => "west",
        }
    }

    /// The name of the direction as an owned string.
    pub fn to_string(&self) -> (r: String)
        ensures
            r@ == self.name_of(),
    {
        self.name().to_owned()
    }

    /// Reads a direction from its name. Any other text is an error, with a
    /// message that quotes the text.
    pub fn from_name(dir: &str) -> (r: Result<GridDirection, String>)
        ensures
            match r {
                Ok(d) => dir@ == d.name_of(),
                Err(e) => e@ == direction_error_text(dir@) && forall|d: GridDirection|
                    dir@ != d.name_of(),
            },
    {
        if same_text(dir, "north") {
            Ok(GridDirection::North)
        } else if same_text(dir, "south") {
            Ok(GridDirection::South)
        } else if same_text(dir, "east") {
            Ok(GridDirection::East)
        } else if same_text(dir, "west") {
            Ok(GridDirection::West)
        } else {
            Err(direction_error(dir))
        }
    }
}

impl std::str::FromStr for GridDirection {
    type Err = String;

    /// Reads a direction from its name. Any other text is an error, with a
    /// message that quotes the text.
    fn from_str(dir: &str) -> (r: Result<Self, String>)
        ensures
            match r {
                Ok(d) => dir@ == d.name_of(),
                Err(e) => e@ == direction_error_text(dir@) && forall|d: GridDirection|
                    dir@ != d.name_of(),
            },
    {
        GridDirection::from_name(dir)
    }
}

/// Whether two strings hold the same characters.
fn same_text(a: &str, b: &str) -> (r: bool)
    ensures
        r == (a@ == b@),
{
    let n = a.unicode_len();
    if n != b.unicode_len() {
        return false;
    }
    let mut k: usize = 0;
    while k < n
        invariant
            n == a@.len(),
            n == b@.len(),
            k <= n,
            forall|m: int| 0 <= m < k ==> a@[m] == b@[m],
        decreases n - k,
    {
        if a.get_char(k) != b.get_char(k) {
            return false;
        }
        k += 1;
    }
    proof {
        assert(a@ =~= b@);
    }
    true
}

/// Builds the message for a text that names no direction.
fn direction_error(dir: &str) -> (r: String)
    ensures
        r@ == direction_error_text(dir@),
{
    let mut message = "expected direction, got \"".to_owned();
    message.append(dir);
    message.append("\"");
    message
}

} // verus!
