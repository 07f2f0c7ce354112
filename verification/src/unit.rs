use crate::distance::edit_dist;
use crate::parse::opt_view;
use crate::text::NAME_LIMIT;
use vstd::prelude::*;
use vstd::string::*;

verus! {

/// A unit as its ghost content alone: the full name and the optional
/// abbreviation, as character sequences.  The build specification
/// constructs units at this level.
pub type UnitView = (Seq<char>, Option<Seq<char>>);

/// `q` equals the full name or the (present) abbreviation verbatim.
pub open spec fn uv_matches_exact(u: UnitView, q: Seq<char>) -> bool {
    u.0 == q || match u.1 {
        Some(a) => a == q,
        None => false,
    }
}

/// The unit's fuzzy distance from `q`: the edit distance to the full name,
/// or to the abbreviation if that is nearer.
pub open spec fn uv_dist(u: UnitView, q: Seq<char>) -> nat {
    match u.1 {
        Some(a) => if edit_dist(q, a) < edit_dist(q, u.0) {
            edit_dist(q, a)
        } else {
            edit_dist(q, u.0)
        },
        None => edit_dist(q, u.0),
    }
}

/// One measurement unit: a lower-cased, singularized full name, and an
/// optional lower-cased abbreviation.  A unit whose table entry gave no
/// abbreviation holds `None`, which keeps it out of abbreviation matching
/// and out of display, with no placeholder token.
#[derive(Debug)]
pub struct Unit {
    pub full_name: String,
    pub ab_name: Option<String>,
}

impl Unit {
    /// Names are short enough for edit-distance tables over any two of them.
    pub open spec fn wf(self) -> bool {
        &&& self.full_name@.len() < NAME_LIMIT
        &&& match self.ab_name {
            Some(a) => a@.len() < NAME_LIMIT,
            None => true,
        }
    }

    /// The unit's ghost content.
    pub open spec fn view_of(self) -> UnitView {
        (self.full_name@, opt_view(self.ab_name))
    }

    /// `q` equals the full name or the (present) abbreviation verbatim.
    pub open spec fn matches_exact(self, q: Seq<char>) -> bool {
        uv_matches_exact(self.view_of(), q)
    }

    /// The unit's fuzzy distance from `q`: the edit distance to the full
    /// name, or to the abbreviation if that is nearer.
    pub open spec fn dist(self, q: Seq<char>) -> nat {
        uv_dist(self.view_of(), q)
    }

    /// How the unit is listed: `full_name(abbreviation)`, or the bare full
    /// name when no abbreviation was ever supplied.
    pub open spec fn display_of(self) -> Seq<char> {
        match self.ab_name {
            Some(a) => self.full_name@ + "("@ + a@ + ")"@,
            None => self.full_name@,
        }
    }

    /// The unit's display line.
    pub fn display_string(&self) -> (r: String)
        ensures
            r@ == self.display_of(),
    {
        match &self.ab_name {
            Some(a) => {
                let mut r = self.full_name.clone();
                r.append("(");
                r.append(a.as_str());
                r.append(")");
                r
            },
            None => self.full_name.clone(),
        }
    }
}

} // verus!
