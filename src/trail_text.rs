//! Reading terrain, skills, hikers and trails from their text forms, for example
//! "Mountain Top => Green Lake: 2000 (PavedTrail) [19]" and
//! "hiking: Beginner, swimming: Intermediate, strong: false, brave: false".
use vstd::prelude::*;
use crate::text::{
    bool_of, chars_of, lemma_split_on_nonempty, lemma_split_pat_nonempty, parse_u32, split_bounds, split_on,
    split_pat, split_pattern_bounds, text_equals, trim_bounds, trimmed, u32_of, u8_of,
};
use crate::trails::{Hiker, Skill, Terrain, Trail};

verus! {

/// The terrain named `s`.
pub open spec fn terrain_of(s: Seq<char>) -> Option<Terrain> {
    if s == "PavedTrail"@ {
        Some(Terrain::PavedTrail)
    } else if s == "UnpavedTrail"@ {
        Some(Terrain::UnpavedTrail)
    } else if s == "RockyTrail"@ {
        Some(Terrain::RockyTrail)
    } else if s == "Water"@ {
        Some(Terrain::Water)
    } else if s == "Zipline"@ {
        Some(Terrain::Zipline)
    } else if s == "RopeBridge"@ {
        Some(Terrain::RopeBridge)
    } else {
        None
    }
}

/// The skill named `s`.
pub open spec fn skill_of(s: Seq<char>) -> Option<Skill> {
    if s == "Beginner"@ {
        Some(Skill::Beginner)
    } else if s == "Intermediate"@ {
        Some(Skill::Intermediate)
    } else if s == "Expert"@ {
        Some(Skill::Expert)
    } else {
        None
    }
}

/// The trimmed text after the first `:` of `f` and before any second one.
pub open spec fn after_colon(f: Seq<char>) -> Option<Seq<char>> {
    let parts = split_on(f, ':');
    if parts.len() >= 2 {
        Some(trimmed(parts[1]))
    } else {
        None
    }
}

/// A hiker from "hiking: H, swimming: S, strong: B, brave: B": the values of
/// the first four comma-separated fields, each after its colon, in that order.
pub open spec fn hiker_of(s: Seq<char>) -> Option<Hiker> {
    let f = split_on(s, ',');
    if f.len() < 4 {
        None
    } else {
        match (after_colon(f[0]), after_colon(f[1]), after_colon(f[2]), after_colon(f[3])) {
            (Some(a), Some(b), Some(c), Some(d)) => match (skill_of(a), skill_of(b), bool_of(c), bool_of(d)) {
                (Some(hiking), Some(swimming), Some(strong), Some(brave)) => Some(
                    Hiker { hiking, swimming, strong, brave },
                ),
                _ => None,
            },
            _ => None,
        }
    }
}

/// The fields of a trail "Start => End: Distance (Terrain) [Danger]": the start
/// before the first `=>`; the end after it, up to a `:`; the distance after the
/// first `:`, up to a `(`; the terrain after the first `(`, up to a `)`; the
/// danger after the first `[`, up to a `]`. All of them trimmed.
pub open spec fn trail_of(s: Seq<char>) -> Option<(Seq<char>, Seq<char>, u32, Terrain, u8)> {
    let arrow = split_pat(s, seq!['=', '>']);
    let colon = split_on(s, ':');
    let paren = split_on(s, '(');
    let bracket = split_on(s, '[');
    if arrow.len() >= 2 && colon.len() >= 2 && paren.len() >= 2 && bracket.len() >= 2 {
        let distance = u32_of(trimmed(split_on(colon[1], '(')[0]));
        let terrain = terrain_of(trimmed(split_on(paren[1], ')')[0]));
        let danger = u8_of(trimmed(split_on(bracket[1], ']')[0]));
        if distance is Some && terrain is Some && danger is Some {
            Some(
                (
                    trimmed(arrow[0]),
                    trimmed(split_on(arrow[1], ':')[0]),
                    distance->Some_0,
                    terrain->Some_0,
                    danger->Some_0,
                ),
            )
        } else {
            None
        }
    } else {
        None
    }
}

fn terrain_in(c: &Vec<char>, lo: usize, hi: usize) -> (r: Option<Terrain>)
    requires
        lo <= hi <= c@.len(),
    ensures
        r == terrain_of(c@.subrange(lo as int, hi as int)),
{
    if text_equals(c, lo, hi, "PavedTrail") {
        Some(Terrain::PavedTrail)
    } else if text_equals(c, lo, hi, "UnpavedTrail") {
        Some(Terrain::UnpavedTrail)
    } else if text_equals(c, lo, hi, "RockyTrail") {
        Some(Terrain::RockyTrail)
    } else if text_equals(c, lo, hi, "Water") {
        Some(Terrain::Water)
    } else if text_equals(c, lo, hi, "Zipline") {
        Some(Terrain::Zipline)
    } else if text_equals(c, lo, hi, "RopeBridge") {
        Some(Terrain::RopeBridge)
    } else {
        None
    }
}

fn skill_in(c: &Vec<char>, lo: usize, hi: usize) -> (r: Option<Skill>)
    requires
        lo <= hi <= c@.len(),
    ensures
        r == skill_of(c@.subrange(lo as int, hi as int)),
{
    if text_equals(c, lo, hi, "Beginner") {
        Some(Skill::Beginner)
    } else if text_equals(c, lo, hi, "Intermediate") {
        Some(Skill::Intermediate)
    } else if text_equals(c, lo, hi, "Expert") {
        Some(Skill::Expert)
    } else {
        None
    }
}

fn bool_in(c: &Vec<char>, lo: usize, hi: usize) -> (r: Option<bool>)
    requires
        lo <= hi <= c@.len(),
    ensures
        r == bool_of(c@.subrange(lo as int, hi as int)),
{
    if text_equals(c, lo, hi, "true") {
        Some(true)
    } else if text_equals(c, lo, hi, "false") {
        Some(false)
    } else {
        None
    }
}

fn u8_in(c: &Vec<char>, lo: usize, hi: usize) -> (r: Option<u8>)
    requires
        lo <= hi <= c@.len(),
    ensures
        r == u8_of(c@.subrange(lo as int, hi as int)),
{
    match parse_u32(c, lo, hi) {
        Some(v) => if v <= 255 {
            Some(v as u8)
        } else {
            None
        },
        None => None,
    }
}

/// Bounds of the trimmed text after the first `:` of `c[lo..hi]`.
fn after_colon_in(c: &Vec<char>, lo: usize, hi: usize) -> (r: Option<(usize, usize)>)
    requires
        lo <= hi <= c@.len(),
    ensures
        r is Some <==> after_colon(c@.subrange(lo as int, hi as int)) is Some,
        r matches Some(b) ==> b.0 <= b.1 <= c@.len() && c@.subrange(b.0 as int, b.1 as int) == after_colon(
            c@.subrange(lo as int, hi as int),
        )->Some_0,
{
    let parts = split_bounds(c, lo, hi, ':');
    if parts.len() < 2 {
        return None;
    }
    Some(trim_bounds(c, parts[1].0, parts[1].1))
}

/// Bounds of the first piece of `c[lo..hi]` before `d`.
fn first_piece(c: &Vec<char>, lo: usize, hi: usize, d: char) -> (r: (usize, usize))
    requires
        lo <= hi <= c@.len(),
    ensures
        r.0 <= r.1 <= c@.len(),
        c@.subrange(r.0 as int, r.1 as int) == split_on(c@.subrange(lo as int, hi as int), d)[0],
{
    proof {
        lemma_split_on_nonempty(c@.subrange(lo as int, hi as int), d);
    }
    let parts = split_bounds(c, lo, hi, d);
    parts[0]
}

impl Terrain {
    /// The terrain named by `s`, which is its variant's name.
    pub fn parse(s: &String) -> (r: Option<Terrain>)
        ensures
            r == terrain_of(s@),
    {
        let c = chars_of(s.as_str());
        proof {
            assert(c@.subrange(0, c@.len() as int) =~= s@);
        }
        terrain_in(&c, 0, c.len())
    }
}

impl Skill {
    /// The skill named by `s`, which is its variant's name.
    pub fn parse(s: &String) -> (r: Option<Skill>)
        ensures
            r == skill_of(s@),
    {
        let c = chars_of(s.as_str());
        proof {
            assert(c@.subrange(0, c@.len() as int) =~= s@);
        }
        skill_in(&c, 0, c.len())
    }
}

impl Hiker {
    /// Reads a hiker from "hiking: Beginner, swimming: Intermediate, strong: false, brave: false".
    pub fn parse(value: &String) -> (r: Option<Hiker>)
        ensures
            r == hiker_of(value@),
    {
        let c = chars_of(value.as_str());
        proof {
            assert(c@.subrange(0, c@.len() as int) =~= value@);
        }
        let f = split_bounds(&c, 0, c.len(), ',');
        if f.len() < 4 {
            return None;
        }
        let a = after_colon_in(&c, f[0].0, f[0].1);
        let b = after_colon_in(&c, f[1].0, f[1].1);
        let s = after_colon_in(&c, f[2].0, f[2].1);
        let v = after_colon_in(&c, f[3].0, f[3].1);
        match (a, b, s, v) {
            (Some(a), Some(b), Some(s), Some(v)) => {
                match (skill_in(&c, a.0, a.1), skill_in(&c, b.0, b.1), bool_in(&c, s.0, s.1), bool_in(&c, v.0, v.1)) {
                    (Some(hiking), Some(swimming), Some(strong), Some(brave)) => Some(
                        Hiker { hiking, swimming, strong, brave },
                    ),
                    _ => None,
                }
            },
            _ => None,
        }
    }
}

impl Trail {
    /// Reads a trail from "Start => End: Distance (Terrain) [Danger]", for
    /// example "Mountain Top => Green Lake: 2000 (PavedTrail) [19]".
    pub fn parse(value: &String) -> (r: Option<Trail>)
        ensures
            r matches Some(t) ==> trail_of(value@) == Some((t.start@, t.end@, t.distance, t.terrain, t.danger)),
            r is None ==> trail_of(value@) is None,
    {
        let text = value.as_str();
        let c = chars_of(text);
        let n = c.len();
        let ghost s = c@.subrange(0, n as int);
        proof {
            assert(s =~= value@);
        }
        let mut arrow_pattern: Vec<char> = Vec::new();
        arrow_pattern.push('=');
        arrow_pattern.push('>');
        proof {
            assert(arrow_pattern@ =~= seq!['=', '>']);
            lemma_split_pat_nonempty(s, seq!['=', '>']);
        }
        let arrow = split_pattern_bounds(&c, 0, n, &arrow_pattern);
        let colon = split_bounds(&c, 0, n, ':');
        let paren = split_bounds(&c, 0, n, '(');
        let bracket = split_bounds(&c, 0, n, '[');
        if arrow.len() < 2 || colon.len() < 2 || paren.len() < 2 || bracket.len() < 2 {
            return None;
        }
        let (d0, d1) = first_piece(&c, colon[1].0, colon[1].1, '(');
        let (d0, d1) = trim_bounds(&c, d0, d1);
        let (t0, t1) = first_piece(&c, paren[1].0, paren[1].1, ')');
        let (t0, t1) = trim_bounds(&c, t0, t1);
        let (g0, g1) = first_piece(&c, bracket[1].0, bracket[1].1, ']');
        let (g0, g1) = trim_bounds(&c, g0, g1);
        let distance = match parse_u32(&c, d0, d1) {
            Some(v) => v,
            None => {
                return None;
            },
        };
        let terrain = match terrain_in(&c, t0, t1) {
            Some(t) => t,
            None => {
                return None;
            },
        };
        let danger = match u8_in(&c, g0, g1) {
            Some(v) => v,
            None => {
                return None;
            },
        };
        let (s0, s1) = trim_bounds(&c, arrow[0].0, arrow[0].1);
        let (e0, e1) = first_piece(&c, arrow[1].0, arrow[1].1, ':');
        let (e0, e1) = trim_bounds(&c, e0, e1);
        let start = String::from_str(text.substring_char(s0, s1));
        let end = String::from_str(text.substring_char(e0, e1));
        Some(Trail { start, end, distance, terrain, danger })
    }
}

/// Reads a terrain from its name; see `Terrain::parse`.
impl TryFrom<String> for Terrain {
    type Error = ();

    fn try_from(s: String) -> (r: Result<Terrain, ()>) {
        match Terrain::parse(&s) {
            Some(t) => Ok(t),
            None => Err(()),
        }
    }
}

impl vstd::std_specs::convert::TryFromSpecImpl<String> for Terrain {
    open spec fn obeys_try_from_spec() -> bool {
        true
    }

    open spec fn try_from_spec(v: String) -> Result<Terrain, ()> {
        match terrain_of(v@) {
            Some(t) => Ok(t),
            None => Err(()),
        }
    }
}

/// Reads a skill from its name; see `Skill::parse`.
impl TryFrom<String> for Skill {
    type Error = ();

    fn try_from(s: String) -> (r: Result<Skill, ()>) {
        match Skill::parse(&s) {
            Some(k) => Ok(k),
            None => Err(()),
        }
    }
}

impl vstd::std_specs::convert::TryFromSpecImpl<String> for Skill {
    open spec fn obeys_try_from_spec() -> bool {
        true
    }

    open spec fn try_from_spec(v: String) -> Result<Skill, ()> {
        match skill_of(v@) {
            Some(k) => Ok(k),
            None => Err(()),
        }
    }
}

/// Reads a hiker; see `Hiker::parse`.
impl TryFrom<String> for Hiker {
    type Error = ();

    fn try_from(value: String) -> (r: Result<Hiker, ()>) {
        match Hiker::parse(&value) {
            Some(h) => Ok(h),
            None => Err(()),
        }
    }
}

impl vstd::std_specs::convert::TryFromSpecImpl<String> for Hiker {
    open spec fn obeys_try_from_spec() -> bool {
        true
    }

    open spec fn try_from_spec(v: String) -> Result<Hiker, ()> {
        match hiker_of(v@) {
            Some(h) => Ok(h),
            None => Err(()),
        }
    }
}

/// Reads a trail; see `Trail::parse`.
impl TryFrom<String> for Trail {
    type Error = ();

    fn try_from(value: String) -> (r: Result<Trail, ()>) {
        match Trail::parse(&value) {
            Some(t) => Ok(t),
            None => Err(()),
        }
    }
}

impl vstd::std_specs::convert::TryFromSpecImpl<String> for Trail {
    open spec fn obeys_try_from_spec() -> bool {
        false
    }

    open spec fn try_from_spec(v: String) -> Result<Trail, ()> {
        Err(())
    }
}

} // verus!
