use vstd::prelude::*;
use vstd::string::StringExecFns;

verus! {

/// A conformance-rule violation found while assembling features, layers or a
/// tile. Each variant carries the offending value where one exists.
#[derive(Debug, PartialEq, Eq)]
pub enum SpecViolation {
    EmptyTile,
    IdenticalLayerNames(String),
    EmptyLayer,
    IdenticalFeatureIds(u64),
    IdenticalAttributeKeys(String),
}

/// The mathematical shape of a [`SpecViolation`]: string payloads abstracted
/// to their character sequences.
pub enum SpecViolationView {
    EmptyTile,
    IdenticalLayerNames(Seq<char>),
    EmptyLayer,
    IdenticalFeatureIds(u64),
    IdenticalAttributeKeys(Seq<char>),
}

impl View for SpecViolation {
    type V = SpecViolationView;

    open spec fn view(&self) -> SpecViolationView {
        match self {
            SpecViolation::EmptyTile => SpecViolationView::EmptyTile,
            SpecViolation::IdenticalLayerNames(name) => SpecViolationView::IdenticalLayerNames(
                name@,
            ),
            SpecViolation::EmptyLayer => SpecViolationView::EmptyLayer,
            SpecViolation::IdenticalFeatureIds(id) => SpecViolationView::IdenticalFeatureIds(*id),
            SpecViolation::IdenticalAttributeKeys(key) => SpecViolationView::IdenticalAttributeKeys(
                key@,
            ),
        }
    }
}

/// A geometry description that breaks the format's geometry rules.
#[derive(Debug, PartialEq, Eq, Clone, Copy)]
pub enum InvalidGeometry {
    EmptyPointGeometry,
    EmptyLineGeometry,
    InvalidLineGeometry,
    EmptyPolygonGeometry,
    InvalidPolygonGeometry,
}

/// The decimal digit `d` as a character, for `0 <= d <= 9`.
pub open spec fn digit_char(d: int) -> char {
    if d == 0 {
        '0'
    } else if d == 1 {
        '1'
    } else if d == 2 {
        '2'
    } else if d == 3 {
        '3'
    } else if d == 4 {
        '4'
    } else if d == 5 {
        '5'
    } else if d == 6 {
        '6'
    } else if d == 7 {
        '7'
    } else if d == 8 {
        '8'
    } else {
        '9'
    }
}

/// The decimal rendering of `n`, most significant digit first.
pub open spec fn dec_str(n: nat) -> Seq<char>
    decreases n,
{
    if n < 10 {
        seq![digit_char(n as int)]
    } else {
        dec_str(n / 10) + seq![digit_char((n % 10) as int)]
    }
}

fn digit_str(d: u64) -> (r: &'static str)
    requires
        d < 10,
    ensures
        r@ == seq![digit_char(d as int)],
{
    let r: &'static str = match d {
        0 => "0",
        1 => "1",
        2 => "2",
        3 => "3",
        4 => "4",
        5 => "5",
        6 => "6",
        7 => "7",
        8 => "8",
        _ => "9",
    };
    proof {
        reveal_strlit("0");
        reveal_strlit("1");
        reveal_strlit("2");
        reveal_strlit("3");
        reveal_strlit("4");
        reveal_strlit("5");
        reveal_strlit("6");
        reveal_strlit("7");
        reveal_strlit("8");
        reveal_strlit("9");
        assert(r@ =~= seq![digit_char(d as int)]);
    }
    r
}

/// Renders `n` in decimal.
pub fn u64_to_string(n: u64) -> (r: String)
    ensures
        r@ == dec_str(n as nat),
    decreases n,
{
    if n < 10 {
        digit_str(n).to_owned()
    } else {
        let mut s = u64_to_string(n / 10);
        s.append(digit_str(n % 10));
        proof {
            assert(s@ =~= dec_str(n as nat));
        }
        s
    }
}

impl InvalidGeometry {
    /// What [`description`](Self::description) returns for each variant.
    pub open spec fn spec_description(self) -> Seq<char> {
        match self {
            InvalidGeometry::EmptyPointGeometry => "Empty point geometry"@,
            InvalidGeometry::EmptyLineGeometry => "Empty line geometry"@,
            InvalidGeometry::InvalidLineGeometry => "A line should contain a least two points"@,
            InvalidGeometry::EmptyPolygonGeometry => "Empty polygon geometry"@,
            InvalidGeometry::InvalidPolygonGeometry => "A polygon should contain a least three points"@,
        }
    }

    /// A human-readable description of the violation.
    pub fn description(&self) -> (r: &'static str)
        ensures
            r@ == self.spec_description(),
    {
        match self {
            InvalidGeometry::EmptyPointGeometry => "Empty point geometry",
            InvalidGeometry::EmptyLineGeometry => "Empty line geometry",
            InvalidGeometry::InvalidLineGeometry => "A line should contain a least two points",
            InvalidGeometry::EmptyPolygonGeometry => "Empty polygon geometry",
            InvalidGeometry::InvalidPolygonGeometry => "A polygon should contain a least three points",
        }
    }
}

impl SpecViolation {
    /// What [`description`](Self::description) returns for each variant: the
    /// governing conformance clause, plus the offending value where one
    /// exists.
    pub open spec fn spec_description(self) -> Seq<char> {
        match self {
            SpecViolation::EmptyTile => "4.1. Layers: A Vector Tile SHOULD contain at least one layer."@,
            SpecViolation::IdenticalLayerNames(name) => "4.1. Layers: A Vector Tile MUST NOT contain two or more layers whose name values are byte-for-byte identical. Offending value: "@
                + name@,
            SpecViolation::EmptyLayer => "4.1. Layers: A layer SHOULD contain at least one feature."@,
            SpecViolation::IdenticalFeatureIds(id) => "4.2. Features: If a feature has an id field, the value of the id SHOULD be unique among the features of the parent layer. Offending value: "@
                + dec_str(id as nat),
            SpecViolation::IdenticalAttributeKeys(key) => "4.4. Feature Attributes: Every key index MUST be unique within that feature such that no other attribute pair within that feature has the same key index. Offending value: "@
                + key@,
        }
    }

    /// A human-readable citation of the violated conformance clause, plus the
    /// offending value where one exists.
    pub fn description(&self) -> (r: String)
        ensures
            r@ == self.spec_description(),
    {
        match self {
            SpecViolation::EmptyTile => "4.1. Layers: A Vector Tile SHOULD contain at least one layer.".to_owned(),
            SpecViolation::IdenticalLayerNames(name) => {
                let mut s =
                    "4.1. Layers: A Vector Tile MUST NOT contain two or more layers whose name values are byte-for-byte identical. Offending value: ".to_owned();
                s.append(name.as_str());
                s
            },
            SpecViolation::EmptyLayer => "4.1. Layers: A layer SHOULD contain at least one feature.".to_owned(),
            SpecViolation::IdenticalFeatureIds(id) => {
                let mut s =
                    "4.2. Features: If a feature has an id field, the value of the id SHOULD be unique among the features of the parent layer. Offending value: ".to_owned();
                let num = u64_to_string(*id);
                s.append(num.as_str());
                s
            },
            SpecViolation::IdenticalAttributeKeys(key) => {
                let mut s =
                    "4.4. Feature Attributes: Every key index MUST be unique within that feature such that no other attribute pair within that feature has the same key index. Offending value: ".to_owned();
                s.append(key.as_str());
                s
            },
        }
    }
}

} // verus!
