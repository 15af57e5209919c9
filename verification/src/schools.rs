//! The closed enumeration of spell schools, with its one-letter storage
//! code and the lossy, case-insensitive name match for user-typed input.

use vstd::prelude::*;
use crate::outside::{lower_of, to_lowercase};
use crate::text::{contains_seq, str_contains, str_eq};

verus! {

/// The eight schools of magic a spell can belong to.
#[derive(Clone, Copy, Debug, PartialEq, Eq, Structural)]
pub enum SpellSchool {
    Abjuration,
    Conjuration,
    Divination,
    Enchantment,
    Evocation,
    Illusion,
    Necromancy,
    Transmutation,
}

impl SpellSchool {
    /// All schools, in display order.
    pub open spec fn all_spec() -> Seq<SpellSchool> {
        seq![
            SpellSchool::Abjuration,
            SpellSchool::Conjuration,
            SpellSchool::Divination,
            SpellSchool::Enchantment,
            SpellSchool::Evocation,
            SpellSchool::Illusion,
            SpellSchool::Necromancy,
            SpellSchool::Transmutation,
        ]
    }

    pub fn all() -> (r: [SpellSchool; 8])
        ensures
            r@ == Self::all_spec(),
    {
        let r = [
            Self::Abjuration,
            Self::Conjuration,
            Self::Divination,
            Self::Enchantment,
            Self::Evocation,
            Self::Illusion,
            Self::Necromancy,
            Self::Transmutation,
        ];
        proof {
            assert(r@ =~= Self::all_spec());
        }
        r
    }

    /// The school's single-character storage code.
    pub open spec fn id_spec(self) -> char {
        match self {
            SpellSchool::Abjuration => 'A',
            SpellSchool::Conjuration => 'C',
            SpellSchool::Divination => 'D',
            SpellSchool::Enchantment => 'E',
            SpellSchool::Evocation => 'V',
            SpellSchool::Illusion => 'I',
            SpellSchool::Necromancy => 'N',
            SpellSchool::Transmutation => 'T',
        }
    }

    pub fn id(&self) -> (c: char)
        ensures
            c == self.id_spec(),
    {
        match self {
            SpellSchool::Abjuration => 'A',
            SpellSchool::Conjuration => 'C',
            SpellSchool::Divination => 'D',
            SpellSchool::Enchantment => 'E',
            SpellSchool::Evocation => 'V',
            SpellSchool::Illusion => 'I',
            SpellSchool::Necromancy => 'N',
            SpellSchool::Transmutation => 'T',
        }
    }

    /// The school's display name.
    pub open spec fn name_spec(self) -> Seq<char> {
        match self {
            SpellSchool::Abjuration => "Abjuration"@,
            SpellSchool::Conjuration => "Conjuration"@,
            SpellSchool::Divination => "Divination"@,
            SpellSchool::Enchantment => "Enchantment"@,
            SpellSchool::Evocation => "Evocation"@,
            SpellSchool::Illusion => "Illusion"@,
            SpellSchool::Necromancy => "Necromancy"@,
            SpellSchool::Transmutation => "Transmutation"@,
        }
    }

    pub fn name(&self) -> (r: &'static str)
        ensures
            r@ == self.name_spec(),
    {
        match self {
            SpellSchool::Abjuration => "Abjuration",
            SpellSchool::Conjuration => "Conjuration",
            SpellSchool::Divination => "Divination",
            SpellSchool::Enchantment => "Enchantment",
            SpellSchool::Evocation => "Evocation",
            SpellSchool::Illusion => "Illusion",
            SpellSchool::Necromancy => "Necromancy",
            SpellSchool::Transmutation => "Transmutation",
        }
    }

    /// Whether `v`, lower-cased, occurs in the school's lower-cased name.
    pub open spec fn name_matches(self, v: Seq<char>) -> bool {
        contains_seq(lower_of(self.name_spec()), lower_of(v))
    }

    /// The school denoted by user input: an exact one-letter code, else the
    /// first school whose name contains the input case-insensitively, else
    /// the default school. Every input maps to a school; the match is lossy
    /// by design.
    pub open spec fn from_name_spec(v: Seq<char>) -> SpellSchool {
        if v == "A"@ {
            SpellSchool::Abjuration
        } else if v == "C"@ {
            SpellSchool::Conjuration
        } else if v == "D"@ {
            SpellSchool::Divination
        } else if v == "E"@ {
            SpellSchool::Enchantment
        } else if v == "V"@ {
            SpellSchool::Evocation
        } else if v == "I"@ {
            SpellSchool::Illusion
        } else if v == "N"@ {
            SpellSchool::Necromancy
        } else if v == "T"@ {
            SpellSchool::Transmutation
        } else if SpellSchool::Abjuration.name_matches(v) {
            SpellSchool::Abjuration
        } else if SpellSchool::Conjuration.name_matches(v) {
            SpellSchool::Conjuration
        } else if SpellSchool::Divination.name_matches(v) {
            SpellSchool::Divination
        } else if SpellSchool::Enchantment.name_matches(v) {
            SpellSchool::Enchantment
        } else if SpellSchool::Evocation.name_matches(v) {
            SpellSchool::Evocation
        } else if SpellSchool::Illusion.name_matches(v) {
            SpellSchool::Illusion
        } else if SpellSchool::Necromancy.name_matches(v) {
            SpellSchool::Necromancy
        } else if SpellSchool::Transmutation.name_matches(v) {
            SpellSchool::Transmutation
        } else {
            SpellSchool::Abjuration
        }
    }

    pub fn from_name(value: &str) -> (r: SpellSchool)
        ensures
            r == Self::from_name_spec(value@),
    {
        if str_eq(value, "A") {
            return SpellSchool::Abjuration;
        }
        if str_eq(value, "C") {
            return SpellSchool::Conjuration;
        }
        if str_eq(value, "D") {
            return SpellSchool::Divination;
        }
        if str_eq(value, "E") {
            return SpellSchool::Enchantment;
        }
        if str_eq(value, "V") {
            return SpellSchool::Evocation;
        }
        if str_eq(value, "I") {
            return SpellSchool::Illusion;
        }
        if str_eq(value, "N") {
            return SpellSchool::Necromancy;
        }
        if str_eq(value, "T") {
            return SpellSchool::Transmutation;
        }
        if Self::matches_exec(SpellSchool::Abjuration, value) {
            return SpellSchool::Abjuration;
        }
        if Self::matches_exec(SpellSchool::Conjuration, value) {
            return SpellSchool::Conjuration;
        }
        if Self::matches_exec(SpellSchool::Divination, value) {
            return SpellSchool::Divination;
        }
        if Self::matches_exec(SpellSchool::Enchantment, value) {
            return SpellSchool::Enchantment;
        }
        if Self::matches_exec(SpellSchool::Evocation, value) {
            return SpellSchool::Evocation;
        }
        if Self::matches_exec(SpellSchool::Illusion, value) {
            return SpellSchool::Illusion;
        }
        if Self::matches_exec(SpellSchool::Necromancy, value) {
            return SpellSchool::Necromancy;
        }
        if Self::matches_exec(SpellSchool::Transmutation, value) {
            return SpellSchool::Transmutation;
        }
        SpellSchool::Abjuration
    }

    fn matches_exec(school: SpellSchool, value: &str) -> (r: bool)
        ensures
            r == school.name_matches(value@),
    {
        let lname = to_lowercase(school.name());
        let lv = to_lowercase(value);
        str_contains(lname.as_str(), lv.as_str())
    }
}

impl Default for SpellSchool {
    /// The default school, used where a source names no recognizable one.
    fn default() -> (r: Self)
        ensures
            r == SpellSchool::Abjuration,
    {
        SpellSchool::Abjuration
    }
}

} // verus!
