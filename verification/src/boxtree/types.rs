//! The data types of the container.
use vstd::prelude::*;
use std::collections::HashMap;
use std::hash::Hash;

verus! {

/// Color of a voxel: red, green, blue and alpha channels
#[derive(Debug, Clone, Copy, PartialEq, Eq, Structural, Hash)]
pub struct Albedo {
    pub r: u8,
    pub g: u8,
    pub b: u8,
    pub a: u8,
}

/// The color packed in a `0xRRGGBBAA` value
pub open spec fn albedo_from_u32(value: u32) -> Albedo {
    Albedo {
        r: ((value >> 24u32) & 0xFFu32) as u8,
        g: ((value >> 16u32) & 0xFFu32) as u8,
        b: ((value >> 8u32) & 0xFFu32) as u8,
        a: (value & 0xFFu32) as u8,
    }
}

impl From<u32> for Albedo {
    fn from(value: u32) -> (r: Albedo) {
        Albedo {
            r: ((value >> 24u32) & 0xFFu32) as u8,
            g: ((value >> 16u32) & 0xFFu32) as u8,
            b: ((value >> 8u32) & 0xFFu32) as u8,
            a: (value & 0xFFu32) as u8,
        }
    }
}

impl vstd::std_specs::convert::FromSpecImpl<u32> for Albedo {
    open spec fn obeys_from_spec() -> bool {
        true
    }

    open spec fn from_spec(value: u32) -> Albedo {
        albedo_from_u32(value)
    }
}

impl Default for Albedo {
    fn default() -> (r: Albedo)
        ensures
            r == (Albedo { r: 0, g: 0, b: 0, a: 0 }),
    {
        Albedo { r: 0, g: 0, b: 0, a: 0 }
    }
}

/// Squared euclidean distance of two colors over all four channels
pub open spec fn color_distance_sq(c1: Albedo, c2: Albedo) -> int {
    (c1.r - c2.r) * (c1.r - c2.r) + (c1.g - c2.g) * (c1.g - c2.g) + (c1.b - c2.b) * (c1.b - c2.b)
        + (c1.a - c2.a) * (c1.a - c2.a)
}

impl Albedo {
    pub fn with_red(self, r: u8) -> (res: Albedo)
        ensures
            res == (Albedo { r, ..self }),
    {
        Albedo { r, ..self }
    }

    pub fn with_green(self, g: u8) -> (res: Albedo)
        ensures
            res == (Albedo { g, ..self }),
    {
        Albedo { g, ..self }
    }

    pub fn with_blue(self, b: u8) -> (res: Albedo)
        ensures
            res == (Albedo { b, ..self }),
    {
        Albedo { b, ..self }
    }

    pub fn with_alpha(self, a: u8) -> (res: Albedo)
        ensures
            res == (Albedo { a, ..self }),
    {
        Albedo { a, ..self }
    }

    /// True if the color can not be seen at all
    pub fn is_transparent(&self) -> (res: bool)
        ensures
            res == (self.a == 0),
    {
        self.a == 0
    }

    /// The squared euclidean distance between the two colors, over all four channels
    pub fn distance_sq_from(&self, other: &Albedo) -> (res: u32)
        ensures
            res == color_distance_sq(*self, *other),
    {
        let dr: u32 = if self.r >= other.r { (self.r - other.r) as u32 } else { (other.r - self.r) as u32 };
        let dg: u32 = if self.g >= other.g { (self.g - other.g) as u32 } else { (other.g - self.g) as u32 };
        let db: u32 = if self.b >= other.b { (self.b - other.b) as u32 } else { (other.b - self.b) as u32 };
        let da: u32 = if self.a >= other.a { (self.a - other.a) as u32 } else { (other.a - self.a) as u32 };
        assert(dr * dr <= 255 * 255 && dg * dg <= 255 * 255 && db * db <= 255 * 255 && da * da <= 255 * 255)
            by (nonlinear_arith)
            requires dr <= 255, dg <= 255, db <= 255, da <= 255;
        assert(dr * dr == (self.r - other.r) * (self.r - other.r)) by (nonlinear_arith)
            requires dr == self.r - other.r || dr == other.r - self.r;
        assert(dg * dg == (self.g - other.g) * (self.g - other.g)) by (nonlinear_arith)
            requires dg == self.g - other.g || dg == other.g - self.g;
        assert(db * db == (self.b - other.b) * (self.b - other.b)) by (nonlinear_arith)
            requires db == self.b - other.b || db == other.b - self.b;
        assert(da * da == (self.a - other.a) * (self.a - other.a)) by (nonlinear_arith)
            requires da == self.a - other.a || da == other.a - self.a;
        dr * dr + dg * dg + db * db + da * da
    }
}

/// User data stored in voxels next to (or instead of) colors
pub trait VoxelData {
    /// True if the data carries no information
    spec fn spec_is_empty(&self) -> bool;

    /// True if the data carries no information
    fn is_empty(&self) -> (r: bool)
        ensures
            r == self.spec_is_empty(),
    ;
}

impl VoxelData for u32 {
    open spec fn spec_is_empty(&self) -> bool {
        *self == 0
    }

    fn is_empty(&self) -> (r: bool) {
        *self == 0
    }
}

/// The content of a single voxel
#[derive(Debug, Clone, Copy, PartialEq, Eq)]
pub enum BoxTreeEntry<'a, T> {
    /// No information available in the voxel
    Empty,
    /// Only color information is available in the voxel
    Visual(&'a Albedo),
    /// Only data information is available in the voxel
    Informative(&'a T),
    /// Both color and data information is available in the voxel
    Complex(&'a Albedo, &'a T),
}

/// The color and the data of an entry, if any
pub open spec fn entry_parts<'a, T>(e: BoxTreeEntry<'a, T>) -> (Option<Albedo>, Option<T>) {
    match e {
        BoxTreeEntry::Empty => (None, None),
        BoxTreeEntry::Visual(a) => (Some(*a), None),
        BoxTreeEntry::Informative(d) => (None, Some(*d)),
        BoxTreeEntry::Complex(a, d) => (Some(*a), Some(*d)),
    }
}

/// Errors the container reports
#[derive(Debug, Clone, PartialEq, Eq)]
pub enum OctreeError {
    /// The brick dimension given at construction is not a power of two
    InvalidBrickDimension(u32),
    /// The size given at construction is not the brick dimension times a power of 4
    InvalidSize(u32),
    /// The construction parameters or the content can not form a valid tree
    InvalidStructure(String),
    /// The given position lies outside of the container
    InvalidPosition { x: u32, y: u32, z: u32 },
}

/// Index values into the color and data palettes: the upper 16 bits index the color palette,
/// the lower 16 bits index the data palette; `0xFFFF` in either half means "no such part"
pub type PaletteIndexValues = u32;

/// The value marking an empty voxel
pub const EMPTY_MARKER: u32 = 0xFFFF_FFFF;

/// The value of one half of a palette index marking the absence of that part
pub const EMPTY_INDEX: u32 = 0xFFFF;

/// Content of a brick: a `brick_dim`^3 matrix of voxels
#[derive(Debug, Clone, PartialEq, Eq)]
pub enum BrickData {
    /// Brick is empty
    Empty,
    /// Brick is a `brick_dim`^3 matrix of voxels, x running fastest
    Parted(Vec<PaletteIndexValues>),
    /// Brick is a single voxel repeated over the whole brick
    Solid(PaletteIndexValues),
}

/// Content of a node of the tree
#[derive(Debug, Clone, PartialEq, Eq)]
pub enum NodeContent {
    /// The node holds nothing
    Nothing,
    /// The node has child nodes; bit `s` is set when sectant `s` may hold data
    Internal(u64),
    /// The node holds 64 bricks, one for each sectant
    Leaf(Vec<BrickData>),
    /// The node holds a single brick covering the whole node
    UniformLeaf(BrickData),
}

/// Connection of a node to its children
#[derive(Debug, Clone, PartialEq, Eq)]
pub enum NodeChildren {
    /// The node has no child nodes
    NoChildren,
    /// Keys of the 64 child nodes; `EMPTY_MARKER` where there is none
    Children(Vec<u32>),
    /// Occupancy of the 64 sectants of a leaf node
    OccupancyBitmap(u64),
}

/// Method to resample the colors of a region into a single color of a MIP map.
/// Thresholds are given in thousandths of the full `0..=1` range.
#[derive(Debug, Clone, Copy, PartialEq, Eq)]
pub enum MIPResamplingMethods {
    /// Gamma corrected average of the colors
    BoxFilter,
    /// The most frequent color
    PointFilter,
    /// The most frequent color, sampled from the bottom level voxels
    PointFilterBD,
    /// The most frequent color group, colors within the threshold being grouped together
    Posterize(u32),
    /// Same as `Posterize`, sampled from the bottom level voxels
    PosterizeBD(u32),
}

/// The threshold of a method clamped into `0..=1000`
pub open spec fn clamped_method(m: MIPResamplingMethods) -> MIPResamplingMethods {
    match m {
        MIPResamplingMethods::Posterize(t) => MIPResamplingMethods::Posterize(
            if t > 1000 { 1000 } else { t },
        ),
        MIPResamplingMethods::PosterizeBD(t) => MIPResamplingMethods::PosterizeBD(
            if t > 1000 { 1000 } else { t },
        ),
        _ => m,
    }
}

impl Default for MIPResamplingMethods {
    fn default() -> (r: MIPResamplingMethods)
        ensures
            r == MIPResamplingMethods::BoxFilter,
    {
        MIPResamplingMethods::BoxFilter
    }
}

/// Settings of how MIP maps are built for each MIP level
#[derive(Debug, Clone)]
pub struct MIPMapStrategy {
    /// True if MIP maps are built
    pub(crate) enabled: bool,
    /// The resampling method of each MIP level
    pub(crate) resampling_methods: HashMap<usize, MIPResamplingMethods>,
    /// Color similarity threshold of each MIP level, in thousandths
    pub(crate) resampling_color_matching_thresholds: HashMap<usize, u32>,
}

/// Sparse voxel container: a tree of nodes, each node splitting its cube into 4x4x4 children,
/// with bricks of `brick_dim`^3 voxels at the bottom
pub struct BoxTree<T = u32> {
    /// Set to true to let the tree merge uniform content when it can
    pub auto_simplify: bool,
    /// Edge length of the cube the tree covers
    pub(crate) boxtree_size: u32,
    /// Edge length of a brick of voxels
    pub(crate) brick_dim: u32,
    /// The nodes of the tree; the root is at key 0
    pub(crate) nodes: Vec<NodeContent>,
    /// The children of each node
    pub(crate) node_children: Vec<NodeChildren>,
    /// The MIP map of each node
    pub(crate) node_mips: Vec<BrickData>,
    /// The colors voxels refer to
    pub(crate) voxel_color_palette: Vec<Albedo>,
    /// The index of each color of the palette, found by its packed key
    pub(crate) map_to_color_index_in_palette: HashMap<u32, usize>,
    /// The user data voxels refer to
    pub(crate) voxel_data_palette: Vec<T>,
    /// Settings of how the MIP maps are built
    pub(crate) mip_map_strategy: MIPMapStrategy,
    /// The cube each node covers
    pub(crate) node_bounds: Vec<crate::spatial::Cube>,
    /// The level of each node: a node of level `j` covers `brick_dim * 4^j` units
    pub(crate) node_levels: Ghost<Seq<nat>>,
}

/// Handle to set the MIP map strategy of a tree; changes through it reach the tree
pub struct StrategyUpdater<'a, T>(pub &'a mut BoxTree<T>);

/// The entry holds nothing visible or informative
pub open spec fn entry_is_none<'a, T: VoxelData>(e: BoxTreeEntry<'a, T>) -> bool {
    match e {
        BoxTreeEntry::Empty => true,
        BoxTreeEntry::Visual(a) => a.a == 0,
        BoxTreeEntry::Informative(d) => d.spec_is_empty(),
        BoxTreeEntry::Complex(a, d) => a.a == 0 && d.spec_is_empty(),
    }
}

impl<'a, T: VoxelData> BoxTreeEntry<'a, T> {
    /// The color of the entry, if it has one
    pub fn albedo(&self) -> (r: Option<&'a Albedo>)
        ensures
            r == match *self {
                BoxTreeEntry::Visual(a) => Some(a),
                BoxTreeEntry::Complex(a, _) => Some(a),
                _ => None,
            },
    {
        match self {
            BoxTreeEntry::Empty => None,
            BoxTreeEntry::Visual(albedo) => Some(albedo),
            BoxTreeEntry::Informative(_) => None,
            BoxTreeEntry::Complex(albedo, _) => Some(albedo),
        }
    }

    /// The user data of the entry, if it has any
    pub fn data(&self) -> (r: Option<&'a T>)
        ensures
            r == match *self {
                BoxTreeEntry::Informative(d) => Some(d),
                BoxTreeEntry::Complex(_, d) => Some(d),
                _ => None,
            },
    {
        match self {
            BoxTreeEntry::Empty => None,
            BoxTreeEntry::Visual(_) => None,
            BoxTreeEntry::Informative(data) => Some(data),
            BoxTreeEntry::Complex(_, data) => Some(data),
        }
    }

    /// True if the entry holds nothing visible or informative
    pub fn is_none(&self) -> (r: bool)
        ensures
            r == entry_is_none(*self),
    {
        match self {
            BoxTreeEntry::Empty => true,
            BoxTreeEntry::Visual(albedo) => albedo.is_transparent(),
            BoxTreeEntry::Informative(data) => data.is_empty(),
            BoxTreeEntry::Complex(albedo, data) => albedo.is_transparent() && data.is_empty(),
        }
    }

    /// True if the entry holds something visible or informative
    pub fn is_some(&self) -> (r: bool)
        ensures
            r == !entry_is_none(*self),
    {
        !self.is_none()
    }
}

} // verus!
