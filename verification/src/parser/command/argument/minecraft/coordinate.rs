//! Coordinates: block positions, positions and rotations, in world (`~`) or local (`^`) form.
//!
//! Each coordinate is kept as the text of its number; an empty text stands for the default `0`.

use crate::parser::command::argument::brigadier::{
    double_spec, integer_spec, lemma_ascii_span_splittable, number_len, number_pred,
    parse_double_prefix, parse_integer_prefix,
};
use crate::text::{
    after, byte_len, find_span_end, is_suffix, lemma_after_suffix, lemma_span_end,
    lemma_splittable_after_ascii, lemma_suffix_trans, skip_suffix, starts_with_ascii, strip_ascii,
    strip_byte, take_str,
};
use vstd::prelude::*;
use vstd::string::*;

verus! {

/// The message for a position with fewer than 2 coordinates.
pub open spec fn incomplete_2_message() -> Seq<char> {
    "Incomplete (expected 2 coordinates)"@
}

/// The message for a position with fewer than 3 coordinates.
pub open spec fn incomplete_3_message() -> Seq<char> {
    "Incomplete (expected 3 coordinates)"@
}

/// The message for a position that mixes world and local coordinates.
pub open spec fn cannot_mix_message() -> Seq<char> {
    "Cannot mix world & local coordinates (everyhing must either use ^ or not)"@
}

/// A block position.
#[derive(Clone, Debug, PartialEq)]
pub struct MinecraftBlockPos<'l>(pub MinecraftVec3<'l>);

/// A rotation: two angles, each possibly relative (`~`).
#[derive(Clone, Debug, PartialEq)]
pub struct MinecraftRotation<'l> {
    pub x_relative: bool,
    pub x: &'l str,
    pub y_relative: bool,
    pub y: &'l str,
}

/// A position in world or in local coordinates.
#[derive(Clone, Debug, PartialEq)]
pub enum MinecraftVec3<'l> {
    Local(LocalCoordinates<'l>),
    World(WorldCoordinates<'l>),
}

/// Three world coordinates, each possibly relative (`~`).
#[derive(Clone, Debug, PartialEq)]
pub struct WorldCoordinates<'l> {
    pub x_relative: bool,
    pub x: &'l str,
    pub y_relative: bool,
    pub y: &'l str,
    pub z_relative: bool,
    pub z: &'l str,
}

/// Three local coordinates (`^`).
#[derive(Clone, Debug, PartialEq)]
pub struct LocalCoordinates<'l> {
    pub x: &'l str,
    pub y: &'l str,
    pub z: &'l str,
}

/// A coordinate: whether it is relative, and the text of its number.
pub type CoordinateModel = (bool, Seq<u8>);

/// The value of a position.
pub enum Vec3Model {
    Local(Seq<u8>, Seq<u8>, Seq<u8>),
    World(CoordinateModel, CoordinateModel, CoordinateModel),
}

impl<'l> MinecraftVec3<'l> {
    /// The value of this position.
    pub open spec fn model(&self) -> Vec3Model {
        match self {
            MinecraftVec3::Local(l) => Vec3Model::Local(
                l.x.spec_bytes(),
                l.y.spec_bytes(),
                l.z.spec_bytes(),
            ),
            MinecraftVec3::World(w) => Vec3Model::World(
                (w.x_relative, w.x.spec_bytes()),
                (w.y_relative, w.y.spec_bytes()),
                (w.z_relative, w.z.spec_bytes()),
            ),
        }
    }
}

impl<'l> MinecraftRotation<'l> {
    /// The value of this rotation.
    pub open spec fn model(&self) -> (CoordinateModel, CoordinateModel) {
        ((self.x_relative, self.x.spec_bytes()), (self.y_relative, self.y.spec_bytes()))
    }
}

/// The number at the start of `t`, as text, or the empty text when there is none, and what
/// follows it; `integer` tells whether it must be an integer rather than a decimal number.
pub open spec fn number_or_default_spec(t: Seq<u8>, integer: bool) -> Result<(Seq<u8>, Seq<u8>), Seq<char>> {
    if number_len(t) == 0 {
        Ok((seq![], t))
    } else if integer {
        match integer_spec(t) {
            Ok((_, r)) => Ok((t.subrange(0, number_len(t)), r)),
            Err(m) => Err(m),
        }
    } else {
        double_spec(t)
    }
}

/// Whether `t` starts with `~`, and what follows that.
pub open spec fn relative_spec(t: Seq<u8>) -> (bool, Seq<u8>) {
    match strip_byte(t, '~' as u8) {
        Some(r) => (true, r),
        None => (false, t),
    }
}

/// A world coordinate at the start of `t` and what follows it; relative coordinates are always
/// decimal numbers.
pub open spec fn world_coordinate_spec(t: Seq<u8>, integer: bool) -> Result<(CoordinateModel, Seq<u8>), Seq<char>> {
    let (relative, s) = relative_spec(t);
    match number_or_default_spec(s, integer && !relative) {
        Ok((n, r)) => Ok(((relative, n), r)),
        Err(m) => Err(m),
    }
}

/// A space, then a world coordinate that must not be local, at the start of `t`.
pub open spec fn next_world_coordinate_spec(t: Seq<u8>, integer: bool, incomplete: Seq<char>) -> Result<
    (CoordinateModel, Seq<u8>),
    Seq<char>,
> {
    match strip_byte(t, ' ' as u8) {
        None => Err(incomplete),
        Some(r) => if r.len() > 0 && r[0] == '^' as u8 {
            Err(cannot_mix_message())
        } else {
            world_coordinate_spec(r, integer)
        },
    }
}

/// Three world coordinates at the start of `t` and what follows them.
pub open spec fn world_spec(t: Seq<u8>, integer: bool) -> Result<
    ((CoordinateModel, CoordinateModel, CoordinateModel), Seq<u8>),
    Seq<char>,
> {
    match world_coordinate_spec(t, integer) {
        Err(m) => Err(m),
        Ok((x, r1)) => match next_world_coordinate_spec(r1, integer, incomplete_3_message()) {
            Err(m) => Err(m),
            Ok((y, r2)) => match next_world_coordinate_spec(r2, integer, incomplete_3_message()) {
                Err(m) => Err(m),
                Ok((z, r3)) => Ok(((x, y, z), r3)),
            },
        },
    }
}

/// A local coordinate (`^` and a number) at the start of `t` and what follows it.
pub open spec fn local_coordinate_spec(t: Seq<u8>) -> Result<(Seq<u8>, Seq<u8>), Seq<char>> {
    match strip_byte(t, '^' as u8) {
        None => Err(cannot_mix_message()),
        Some(r) => number_or_default_spec(r, false),
    }
}

/// A space, then a local coordinate, at the start of `t`.
pub open spec fn next_local_coordinate_spec(t: Seq<u8>) -> Result<(Seq<u8>, Seq<u8>), Seq<char>> {
    match strip_byte(t, ' ' as u8) {
        None => Err(incomplete_3_message()),
        Some(r) => local_coordinate_spec(r),
    }
}

/// Three local coordinates at the start of `t` and what follows them.
pub open spec fn local_spec(t: Seq<u8>) -> Result<((Seq<u8>, Seq<u8>, Seq<u8>), Seq<u8>), Seq<char>> {
    match local_coordinate_spec(t) {
        Err(m) => Err(m),
        Ok((x, r1)) => match next_local_coordinate_spec(r1) {
            Err(m) => Err(m),
            Ok((y, r2)) => match next_local_coordinate_spec(r2) {
                Err(m) => Err(m),
                Ok((z, r3)) => Ok(((x, y, z), r3)),
            },
        },
    }
}

/// A position at the start of `t` and what follows it: local when it starts with `^`, else in
/// world coordinates whose absolute numbers are integers when `integer` holds.
pub open spec fn vec3_spec(t: Seq<u8>, integer: bool) -> Result<(Vec3Model, Seq<u8>), Seq<char>> {
    if t.len() > 0 && t[0] == '^' as u8 {
        match local_spec(t) {
            Ok(((x, y, z), r)) => Ok((Vec3Model::Local(x, y, z), r)),
            Err(m) => Err(m),
        }
    } else {
        match world_spec(t, integer) {
            Ok(((x, y, z), r)) => Ok((Vec3Model::World(x, y, z), r)),
            Err(m) => Err(m),
        }
    }
}

/// A rotation at the start of `t` and what follows it.
pub open spec fn rotation_spec(t: Seq<u8>) -> Result<((CoordinateModel, CoordinateModel), Seq<u8>), Seq<char>> {
    if t.len() > 0 && t[0] == '^' as u8 {
        Err(cannot_mix_message())
    } else {
        match world_coordinate_spec(t, false) {
            Err(m) => Err(m),
            Ok((x, r1)) => match next_world_coordinate_spec(r1, false, incomplete_2_message()) {
                Err(m) => Err(m),
                Ok((y, r2)) => Ok(((x, y), r2)),
            },
        }
    }
}

/// An error when `string` starts with `^`.
pub fn check_non_local(string: &str) -> (res: Result<(), String>)
    ensures
        (string.spec_bytes().len() > 0 && string.spec_bytes()[0] == '^' as u8) ==> (res matches Err(
            e,
        ) && e@ == cannot_mix_message()),
        !(string.spec_bytes().len() > 0 && string.spec_bytes()[0] == '^' as u8) ==> res is Ok,
{
    if starts_with_ascii(string, '^') {
        Err(String::from_str("Cannot mix world & local coordinates (everyhing must either use ^ or not)"))
    } else {
        Ok(())
    }
}

/// Whether `string` starts with `~`, and the rest of `string` after it.
pub fn parse_relative(string: &str) -> (res: (bool, &str))
    ensures
        res.0 == relative_spec(string.spec_bytes()).0,
        res.1.spec_bytes() == relative_spec(string.spec_bytes()).1,
        is_suffix(res.1.spec_bytes(), string.spec_bytes()),
{
    match strip_ascii(string, '~') {
        Some(r) => (true, r),
        None => {
            proof {
                lemma_after_suffix(string.spec_bytes(), 0);
            }
            (false, string)
        },
    }
}

/// The number at the start of `string` as text (empty when there is none), and the rest of
/// `string`; `integer` tells whether it must be an integer.
pub fn parse_number_or_default(string: &str, integer: bool) -> (res: Result<(&str, &str), String>)
    ensures
        match number_or_default_spec(string.spec_bytes(), integer) {
            Ok((v, r)) => res matches Ok((x, y)) && x.spec_bytes() == v && y.spec_bytes() == r
                && is_suffix(r, string.spec_bytes()),
            Err(m) => res matches Err(e) && e@ == m,
        },
{
    let b = string.as_bytes();
    let len = find_span_end(b, 0, crate::parser::command::argument::brigadier::is_allowed_number, Ghost(number_pred()));
    proof {
        lemma_span_end(b@, 0, number_pred());
        lemma_ascii_span_splittable(string, len as int, number_pred());
        lemma_after_suffix(b@, 0);
    }
    if len == 0 {
        proof {
            assert(string.spec_bytes().subrange(0, 0) =~= seq![]);
        }
        Ok((take_str(string, 0), string))
    } else if integer {
        match parse_integer_prefix(string) {
            Ok((_, rest)) => Ok((take_str(string, len), rest)),
            Err(e) => Err(e),
        }
    } else {
        parse_double_prefix(string)
    }
}

/// A world coordinate at the start of `string`, and the rest of `string`.
fn parse_world_coordinate(string: &str, integer: bool) -> (res: Result<(bool, &str, &str), String>)
    ensures
        match world_coordinate_spec(string.spec_bytes(), integer) {
            Ok(((rel, v), r)) => res matches Ok((a, x, y)) && a == rel && x.spec_bytes() == v
                && y.spec_bytes() == r && is_suffix(r, string.spec_bytes()),
            Err(m) => res matches Err(e) && e@ == m,
        },
{
    let (relative, s) = parse_relative(string);
    match parse_number_or_default(s, integer && !relative) {
        Ok((number, rest)) => {
            proof {
                lemma_suffix_trans(rest.spec_bytes(), s.spec_bytes(), string.spec_bytes());
            }
            Ok((relative, number, rest))
        },
        Err(e) => Err(e),
    }
}

/// A space and a world coordinate that is not local at the start of `string`, and the rest of
/// `string`; `two` tells whether the position has two coordinates rather than three.
fn parse_next_world_coordinate(string: &str, integer: bool, two: bool) -> (res: Result<(bool, &str, &str), String>)
    ensures
        match next_world_coordinate_spec(
            string.spec_bytes(),
            integer,
            if two {
                incomplete_2_message()
            } else {
                incomplete_3_message()
            },
        ) {
            Ok(((rel, v), r)) => res matches Ok((a, x, y)) && a == rel && x.spec_bytes() == v
                && y.spec_bytes() == r && is_suffix(r, string.spec_bytes()),
            Err(m) => res matches Err(e) && e@ == m,
        },
{
    let r = match strip_ascii(string, ' ') {
        Some(r) => r,
        None => {
            return if two {
                Err(String::from_str("Incomplete (expected 2 coordinates)"))
            } else {
                Err(String::from_str("Incomplete (expected 3 coordinates)"))
            };
        },
    };
    check_non_local(r)?;
    match parse_world_coordinate(r, integer) {
        Ok((relative, number, rest)) => {
            proof {
                lemma_suffix_trans(rest.spec_bytes(), r.spec_bytes(), string.spec_bytes());
            }
            Ok((relative, number, rest))
        },
        Err(e) => Err(e),
    }
}

impl<'l> WorldCoordinates<'l> {
    /// Three world coordinates at the start of `string`, and the rest of `string`.
    pub fn parse(string: &'l str, integer: bool) -> (res: Result<(Self, &'l str), String>)
        ensures
            match world_spec(string.spec_bytes(), integer) {
                Ok(((x, y, z), r)) => res matches Ok((w, rest)) && (w.x_relative, w.x.spec_bytes())
                    == x && (w.y_relative, w.y.spec_bytes()) == y && (
                    w.z_relative,
                    w.z.spec_bytes(),
                ) == z && rest.spec_bytes() == r && is_suffix(r, string.spec_bytes()),
                Err(m) => res matches Err(e) && e@ == m,
            },
    {
        let (x_relative, x, r1) = parse_world_coordinate(string, integer)?;
        let (y_relative, y, r2) = parse_next_world_coordinate(r1, integer, false)?;
        let (z_relative, z, r3) = parse_next_world_coordinate(r2, integer, false)?;
        proof {
            lemma_suffix_trans(r2.spec_bytes(), r1.spec_bytes(), string.spec_bytes());
            lemma_suffix_trans(r3.spec_bytes(), r2.spec_bytes(), string.spec_bytes());
        }
        Ok((WorldCoordinates { x_relative, x, y_relative, y, z_relative, z }, r3))
    }
}

/// A local coordinate at the start of `string`, and the rest of `string`.
fn parse_local_coordinate(string: &str) -> (res: Result<(&str, &str), String>)
    ensures
        match local_coordinate_spec(string.spec_bytes()) {
            Ok((v, r)) => res matches Ok((x, y)) && x.spec_bytes() == v && y.spec_bytes() == r
                && is_suffix(r, string.spec_bytes()),
            Err(m) => res matches Err(e) && e@ == m,
        },
{
    let r = match strip_ascii(string, '^') {
        Some(r) => r,
        None => {
            return Err(
                String::from_str("Cannot mix world & local coordinates (everyhing must either use ^ or not)"),
            );
        },
    };
    match parse_number_or_default(r, false) {
        Ok((number, rest)) => {
            proof {
                lemma_suffix_trans(rest.spec_bytes(), r.spec_bytes(), string.spec_bytes());
            }
            Ok((number, rest))
        },
        Err(e) => Err(e),
    }
}

/// A space and a local coordinate at the start of `string`, and the rest of `string`.
fn parse_next_local_coordinate(string: &str) -> (res: Result<(&str, &str), String>)
    ensures
        match next_local_coordinate_spec(string.spec_bytes()) {
            Ok((v, r)) => res matches Ok((x, y)) && x.spec_bytes() == v && y.spec_bytes() == r
                && is_suffix(r, string.spec_bytes()),
            Err(m) => res matches Err(e) && e@ == m,
        },
{
    let r = match strip_ascii(string, ' ') {
        Some(r) => r,
        None => {
            return Err(String::from_str("Incomplete (expected 3 coordinates)"));
        },
    };
    match parse_local_coordinate(r) {
        Ok((number, rest)) => {
            proof {
                lemma_suffix_trans(rest.spec_bytes(), r.spec_bytes(), string.spec_bytes());
            }
            Ok((number, rest))
        },
        Err(e) => Err(e),
    }
}

impl<'l> LocalCoordinates<'l> {
    /// Three local coordinates at the start of `string`, and the rest of `string`.
    pub fn parse(string: &'l str) -> (res: Result<(Self, &'l str), String>)
        ensures
            match local_spec(string.spec_bytes()) {
                Ok(((x, y, z), r)) => res matches Ok((l, rest)) && l.x.spec_bytes() == x
                    && l.y.spec_bytes() == y && l.z.spec_bytes() == z && rest.spec_bytes() == r
                    && is_suffix(r, string.spec_bytes()),
                Err(m) => res matches Err(e) && e@ == m,
            },
    {
        let (x, r1) = parse_local_coordinate(string)?;
        let (y, r2) = parse_next_local_coordinate(r1)?;
        let (z, r3) = parse_next_local_coordinate(r2)?;
        proof {
            lemma_suffix_trans(r2.spec_bytes(), r1.spec_bytes(), string.spec_bytes());
            lemma_suffix_trans(r3.spec_bytes(), r2.spec_bytes(), string.spec_bytes());
        }
        Ok((LocalCoordinates { x, y, z }, r3))
    }
}

impl<'l> MinecraftVec3<'l> {
    /// The position at the start of `string`, and the rest of `string`; `integer` tells whether
    /// absolute world coordinates must be integers.
    pub fn parse_rest(string: &'l str, integer: bool) -> (res: Result<(Self, &'l str), String>)
        ensures
            match vec3_spec(string.spec_bytes(), integer) {
                Ok((m, r)) => res matches Ok((v, rest)) && v.model() == m && rest.spec_bytes() == r
                    && is_suffix(r, string.spec_bytes()),
                Err(m) => res matches Err(e) && e@ == m,
            },
    {
        if starts_with_ascii(string, '^') {
            let (local, rest) = LocalCoordinates::parse(string)?;
            Ok((MinecraftVec3::Local(local), rest))
        } else {
            let (world, rest) = WorldCoordinates::parse(string, integer)?;
            Ok((MinecraftVec3::World(world), rest))
        }
    }

    /// The position at the start of `string` and its length in bytes.
    pub fn parse(string: &'l str) -> (res: Result<(Self, usize), String>)
        ensures
            match vec3_spec(string.spec_bytes(), false) {
                Ok((m, r)) => res matches Ok((v, n)) && v.model() == m && n
                    == string.spec_bytes().len() - r.len(),
                Err(m) => res matches Err(e) && e@ == m,
            },
    {
        let (vec, rest) = Self::parse_rest(string, false)?;
        Ok((vec, byte_len(string) - byte_len(rest)))
    }
}

impl<'l> MinecraftBlockPos<'l> {
    /// The block position at the start of `string` and its length in bytes.
    pub fn parse(string: &'l str) -> (res: Result<(Self, usize), String>)
        ensures
            match vec3_spec(string.spec_bytes(), true) {
                Ok((m, r)) => res matches Ok((v, n)) && v.0.model() == m && n
                    == string.spec_bytes().len() - r.len(),
                Err(m) => res matches Err(e) && e@ == m,
            },
    {
        let (vec, rest) = MinecraftVec3::parse_rest(string, true)?;
        Ok((MinecraftBlockPos(vec), byte_len(string) - byte_len(rest)))
    }
}

impl<'l> MinecraftRotation<'l> {
    /// The rotation at the start of `string`, and the rest of `string`.
    pub fn parse_rest(string: &'l str) -> (res: Result<(Self, &'l str), String>)
        ensures
            match rotation_spec(string.spec_bytes()) {
                Ok((m, r)) => res matches Ok((v, rest)) && v.model() == m && rest.spec_bytes() == r
                    && is_suffix(r, string.spec_bytes()),
                Err(m) => res matches Err(e) && e@ == m,
            },
    {
        check_non_local(string)?;
        let (x_relative, x, r1) = parse_world_coordinate(string, false)?;
        let (y_relative, y, r2) = parse_next_world_coordinate(r1, false, true)?;
        proof {
            lemma_suffix_trans(r2.spec_bytes(), r1.spec_bytes(), string.spec_bytes());
        }
        Ok((MinecraftRotation { x_relative, x, y_relative, y }, r2))
    }

    /// The rotation at the start of `string` and its length in bytes.
    pub fn parse(string: &'l str) -> (res: Result<(Self, usize), String>)
        ensures
            match rotation_spec(string.spec_bytes()) {
                Ok((m, r)) => res matches Ok((v, n)) && v.model() == m && n
                    == string.spec_bytes().len() - r.len(),
                Err(m) => res matches Err(e) && e@ == m,
            },
    {
        let (rotation, rest) = Self::parse_rest(string)?;
        Ok((rotation, byte_len(string) - byte_len(rest)))
    }
}

} // verus!
