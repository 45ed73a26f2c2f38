//! Trail network entities: terrain, skills, one-way trails and hikers, with the
//! per-terrain travel-time policy of a hiker.
use vstd::prelude::*;

verus! {

/// Various types of terrain that may be encountered while traversing the trail network.
#[derive(Debug, PartialEq, Eq, Clone, Copy, Structural)]
pub enum Terrain {
    PavedTrail,
    UnpavedTrail,
    RockyTrail,
    Water,
    Zipline,
    RopeBridge,
}

/// A level of skill that a hiker may attain in various forms of hiking.
#[derive(Debug, PartialEq, Eq, Clone, Copy, Structural)]
pub enum Skill {
    Beginner,
    Intermediate,
    Expert,
}

/// A one-way trail that can be traveled from the starting campsite to the ending campsite.
/// Every campsite in the network has a unique name.
#[derive(Debug, Clone)]
pub struct Trail {
    /// The name of the campsite where this trail begins
    pub start: String,
    /// The name of the campsite where this trail ends
    pub end: String,
    /// The distance traveled along the trail in meters
    pub distance: u32,
    /// The type of terrain that must be traversed in this trail
    pub terrain: Terrain,
    /// The danger encountered along the way, from 0 (harmless) to 255.
    pub danger: u8,
}

impl PartialEq for Trail {
    fn eq(&self, other: &Trail) -> (r: bool)
        ensures
            r == (self.start@ == other.start@ && self.end@ == other.end@
                && self.distance == other.distance && self.terrain == other.terrain
                && self.danger == other.danger),
    {
        self.start == other.start && self.end == other.end && self.distance == other.distance
            && self.terrain == other.terrain && self.danger == other.danger
    }
}

impl vstd::std_specs::cmp::PartialEqSpecImpl for Trail {
    open spec fn obeys_eq_spec() -> bool {
        true
    }

    open spec fn eq_spec(&self, other: &Trail) -> bool {
        self.start@ == other.start@ && self.end@ == other.end@ && self.distance == other.distance
            && self.terrain == other.terrain && self.danger == other.danger
    }
}

impl Eq for Trail {

}

/// A hiker that is interested in traversing the trail network.
/// Hikers' skills affect how fast they traverse various terrain, and in some
/// cases whether they can traverse it at all.
#[derive(Debug, PartialEq, Eq, Clone, Copy, Structural)]
pub struct Hiker {
    /// The hiker's ability to traverse trails on foot.
    pub hiking: Skill,
    /// The hiker's ability to traverse trails over water.
    pub swimming: Skill,
    /// Whether the hiker is strong enough to hold their own body weight.
    pub strong: bool,
    /// Whether the hiker is brave enough to traverse scary, dangerous, or high elements.
    pub brave: bool,
}

/// The default hiker (Bill): strong, not brave, an intermediate hiker and an expert swimmer.
impl Default for Hiker {
    fn default() -> (h: Self)
        ensures
            h == (Hiker { strong: true, brave: false, hiking: Skill::Intermediate, swimming: Skill::Expert }),
    {
        Hiker { strong: true, brave: false, hiking: Skill::Intermediate, swimming: Skill::Expert }
    }
}

/// Travel time of hiker `h` over `distance` meters of `terrain`, or `None` where
/// the hiker cannot use that terrain at all. Divisions round down.
pub open spec fn travel_time_of(h: Hiker, terrain: Terrain, distance: int) -> Option<int> {
    match terrain {
        Terrain::RopeBridge => if h.brave { Some(distance) } else { None },
        Terrain::Zipline => if h.brave && h.strong { Some(distance / 10) } else { None },
        Terrain::Water => Some(
            distance * match h.swimming {
                Skill::Beginner => 9int,
                Skill::Intermediate => 6,
                Skill::Expert => 3,
            },
        ),
        Terrain::RockyTrail => Some(
            distance * match h.hiking {
                Skill::Beginner => 4int,
                Skill::Intermediate => 2,
                Skill::Expert => 1,
            },
        ),
        Terrain::UnpavedTrail => Some(
            match h.hiking {
                Skill::Beginner => 2 * distance,
                Skill::Intermediate => distance,
                Skill::Expert => distance / 2,
            },
        ),
        Terrain::PavedTrail => Some(
            match h.hiking {
                Skill::Beginner => distance,
                Skill::Intermediate => distance / 2,
                Skill::Expert => distance / 4,
            },
        ),
    }
}

impl Hiker {
    /// Returns the time it takes this hiker to traverse a trail of the given
    /// terrain and length, if they can traverse it at all. The result is wider
    /// than the length, so that the multiplied costs never overflow.
    pub fn travel_time(&self, terrain: &Terrain, distance: u32) -> (r: Option<u64>)
        ensures
            r matches Some(t) <==> travel_time_of(*self, *terrain, distance as int) is Some,
            r matches Some(t) ==> t as int == travel_time_of(*self, *terrain, distance as int)->Some_0,
    {
        let d: u64 = distance as u64;
        match terrain {
            Terrain::RopeBridge => if self.brave { Some(d) } else { None },
            Terrain::Zipline => if self.brave && self.strong { Some(d / 10) } else { None },
            Terrain::Water => {
                let multiplier: u64 = match self.swimming {
                    Skill::Beginner => 9,
                    Skill::Intermediate => 6,
                    Skill::Expert => 3,
                };
                Some(multiplier * d)
            },
            Terrain::RockyTrail => match self.hiking {
                Skill::Beginner => Some(4 * d),
                Skill::Intermediate => Some(2 * d),
                Skill::Expert => Some(d),
            },
            Terrain::UnpavedTrail => match self.hiking {
                Skill::Beginner => Some(2 * d),
                Skill::Intermediate => Some(d),
                Skill::Expert => Some(d / 2),
            },
            Terrain::PavedTrail => match self.hiking {
                Skill::Beginner => Some(d),
                Skill::Intermediate => Some(d / 2),
                Skill::Expert => Some(d / 4),
            },
        }
    }
}

} // verus!
