//! Rarity tiers and their sampling weights.

use vstd::prelude::*;
use crate::text::lowercase;

verus! {

/// A rarity tier. `Never` and `Always` are not sampled by weight: an option
/// marked `Never` is left out, one marked `Always` is taken at once.
#[derive(Clone, Copy, Debug, PartialEq, Eq, Structural, PartialOrd, Ord, Hash)]
pub enum Chance {
    Never,
    ExtremelyRare,
    VeryRare,
    Rare,
    Uncommon,
    Standard,
    Common,
    VeryCommon,
    ExtremelyCommon,
    Always,
}

impl Chance {
    /// The sampling weight of each tier.
    pub open spec fn weight(self) -> nat {
        match self {
            Chance::ExtremelyRare => 1,
            Chance::VeryRare => 3,
            Chance::Rare => 9,
            Chance::Uncommon => 18,
            Chance::Standard => 30,
            Chance::Common => 45,
            Chance::VeryCommon => 60,
            Chance::ExtremelyCommon => 100,
            Chance::Never | Chance::Always => 0,
        }
    }

    /// The position of the tier in the order from `Never` to `Always`.
    pub open spec fn rank(self) -> nat {
        match self {
            Chance::Never => 0,
            Chance::ExtremelyRare => 1,
            Chance::VeryRare => 2,
            Chance::Rare => 3,
            Chance::Uncommon => 4,
            Chance::Standard => 5,
            Chance::Common => 6,
            Chance::VeryCommon => 7,
            Chance::ExtremelyCommon => 8,
            Chance::Always => 9,
        }
    }

    /// The tier at a position of the order from `Never` to `Always`.
    pub open spec fn at(rank: int) -> Chance {
        if rank <= 0 {
            Chance::Never
        } else if rank == 1 {
            Chance::ExtremelyRare
        } else if rank == 2 {
            Chance::VeryRare
        } else if rank == 3 {
            Chance::Rare
        } else if rank == 4 {
            Chance::Uncommon
        } else if rank == 5 {
            Chance::Standard
        } else if rank == 6 {
            Chance::Common
        } else if rank == 7 {
            Chance::VeryCommon
        } else if rank == 8 {
            Chance::ExtremelyCommon
        } else {
            Chance::Always
        }
    }

    /// Whether the tier takes part in weighted sampling.
    pub open spec fn sampled(self) -> bool {
        self != Chance::Never && self != Chance::Always
    }

    /// The sampling weight of the tier; 0 for `Never` and `Always`, which are
    /// not sampled by weight.
    pub fn chance(&self) -> (w: u32)
        ensures
            w == self.weight(),
    {
        match *self {
            Chance::ExtremelyRare => 1,
            Chance::VeryRare => 3,
            Chance::Rare => 9,
            Chance::Uncommon => 18,
            Chance::Standard => 30,
            Chance::Common => 45,
            Chance::VeryCommon => 60,
            Chance::ExtremelyCommon => 100,
            _ => 0,
        }
    }

    /// The position of the tier in the order from `Never` to `Always`.
    pub fn index(&self) -> (r: usize)
        ensures
            r == self.rank(),
    {
        match *self {
            Chance::Never => 0,
            Chance::ExtremelyRare => 1,
            Chance::VeryRare => 2,
            Chance::Rare => 3,
            Chance::Uncommon => 4,
            Chance::Standard => 5,
            Chance::Common => 6,
            Chance::VeryCommon => 7,
            Chance::ExtremelyCommon => 8,
            Chance::Always => 9,
        }
    }
}

impl Chance {
    /// The tier at a position of the order from `Never` to `Always`.
    pub fn of_rank(rank: usize) -> (c: Chance)
        ensures
            c == Chance::at(rank as int),
            rank <= 9 ==> c.rank() == rank,
    {
        if rank == 0 {
            Chance::Never
        } else if rank == 1 {
            Chance::ExtremelyRare
        } else if rank == 2 {
            Chance::VeryRare
        } else if rank == 3 {
            Chance::Rare
        } else if rank == 4 {
            Chance::Uncommon
        } else if rank == 5 {
            Chance::Standard
        } else if rank == 6 {
            Chance::Common
        } else if rank == 7 {
            Chance::VeryCommon
        } else if rank == 8 {
            Chance::ExtremelyCommon
        } else {
            Chance::Always
        }
    }
}

impl Chance {
    /// The tier that a name in lowercase stands for.
    pub open spec fn named(name: Seq<char>) -> Option<Chance> {
        if name == "never"@ {
            Some(Chance::Never)
        } else if name == "extremelyrare"@ {
            Some(Chance::ExtremelyRare)
        } else if name == "veryrare"@ {
            Some(Chance::VeryRare)
        } else if name == "rare"@ {
            Some(Chance::Rare)
        } else if name == "uncommon"@ {
            Some(Chance::Uncommon)
        } else if name == "standard"@ {
            Some(Chance::Standard)
        } else if name == "common"@ {
            Some(Chance::Common)
        } else if name == "verycommon"@ {
            Some(Chance::VeryCommon)
        } else if name == "extremelycommon"@ {
            Some(Chance::ExtremelyCommon)
        } else if name == "always"@ {
            Some(Chance::Always)
        } else {
            None
        }
    }

    /// The name of the tier as it is written.
    pub open spec fn label(self) -> Seq<char> {
        match self {
            Chance::Never => "Never"@,
            Chance::ExtremelyRare => "ExtremelyRare"@,
            Chance::VeryRare => "VeryRare"@,
            Chance::Rare => "Rare"@,
            Chance::Uncommon => "Uncommon"@,
            Chance::Standard => "Standard"@,
            Chance::Common => "Common"@,
            Chance::VeryCommon => "VeryCommon"@,
            Chance::ExtremelyCommon => "ExtremelyCommon"@,
            Chance::Always => "Always"@,
        }
    }

    /// Reads the name of a tier, in any mix of uppercase and lowercase.
    pub fn parse(name: &str) -> (r: Option<Chance>)
        ensures
            r == Chance::named(lowercase(name@)),
    {
        let lower = name.to_lowercase();
        if lower == "never".to_owned() {
            Some(Chance::Never)
        } else if lower == "extremelyrare".to_owned() {
            Some(Chance::ExtremelyRare)
        } else if lower == "veryrare".to_owned() {
            Some(Chance::VeryRare)
        } else if lower == "rare".to_owned() {
            Some(Chance::Rare)
        } else if lower == "uncommon".to_owned() {
            Some(Chance::Uncommon)
        } else if lower == "standard".to_owned() {
            Some(Chance::Standard)
        } else if lower == "common".to_owned() {
            Some(Chance::Common)
        } else if lower == "verycommon".to_owned() {
            Some(Chance::VeryCommon)
        } else if lower == "extremelycommon".to_owned() {
            Some(Chance::ExtremelyCommon)
        } else if lower == "always".to_owned() {
            Some(Chance::Always)
        } else {
            None
        }
    }

    /// The name of the tier as it is written.
    pub fn name(&self) -> (s: &'static str)
        ensures
            s@ == self.label(),
    {
        match *self {
            Chance::Never => "Never",
            Chance::ExtremelyRare => "ExtremelyRare",
            Chance::VeryRare => "VeryRare",
            Chance::Rare => "Rare",
            Chance::Uncommon => "Uncommon",
            Chance::Standard => "Standard",
            Chance::Common => "Common",
            Chance::VeryCommon => "VeryCommon",
            Chance::ExtremelyCommon => "ExtremelyCommon",
            Chance::Always => "Always",
        }
    }
}

impl Default for Chance {
    fn default() -> (c: Chance)
        ensures
            c == Chance::Standard,
    {
        Chance::Standard
    }
}

} // verus!
