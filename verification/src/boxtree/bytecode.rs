//! Storing a tree as bytes: the tree is written out as a list of integers, which is stored in
//! the bencode format.
use vstd::prelude::*;
use bendy::decoding::FromBencode;
use bendy::encoding::ToBencode;
use crate::spatial::{Cube, V3c};
use crate::boxtree::types::{
    Albedo, BoxTree, BrickData, MIPMapStrategy, MIPResamplingMethods, NodeChildren, NodeContent, EMPTY_INDEX,
};
use crate::boxtree::{pix_valid, brick_valid, pix_color_index, pix_data_index, pow4, power, is_power_of, exact_log, lemma_pow4_is_power, lemma_level_size};
use crate::spatial::{cube_fits, cube_splittable, child_cube};
use crate::boxtree::types::EMPTY_MARKER;
use crate::{Version, version};

verus! {

#[verifier::external_type_specification]
#[verifier::external_body]
pub struct ExBencodeEncodingError(bendy::encoding::Error);

#[verifier::external_type_specification]
#[verifier::external_body]
pub struct ExBencodeDecodingError(bendy::decoding::Error);

/// The decimal digits of a number, most significant first, as ASCII bytes
pub open spec fn decimal_bytes(n: nat) -> Seq<u8>
    decreases n,
{
    if n < 10 {
        seq![(n + 48) as u8]
    } else {
        decimal_bytes(n / 10).push((n % 10 + 48) as u8)
    }
}

/// A bencoded integer: `i`, its decimal digits, `e`
pub open spec fn bencode_int(n: u64) -> Seq<u8> {
    seq![105u8] + decimal_bytes(n as nat) + seq![101u8]
}

/// The bencoded integers one after the other
pub open spec fn bencode_ints(v: Seq<u64>) -> Seq<u8>
    decreases v.len(),
{
    if v.len() == 0 {
        Seq::empty()
    } else {
        bencode_ints(v.drop_last()) + bencode_int(v.last())
    }
}

/// A bencoded list of integers: `l`, the bencoded integers, `e`
pub open spec fn bencode_list(v: Seq<u64>) -> Seq<u8> {
    seq![108u8] + bencode_ints(v) + seq![101u8]
}

/// Bencodes a list of integers, through `ToBencode::to_bencode` of the `bendy` crate.
/// The contract claims the bencode form of the list: `l`, then `i`, the decimal digits and
/// `e` for each number, then `e`. It also claims that encoding never fails: the encoder of
/// that crate reports errors only for nesting deeper than it was set up for, or for
/// dictionaries, and a flat list of integers is neither.
#[verifier::external_body]
fn bencode_u64s(values: &Vec<u64>) -> (r: Result<Vec<u8>, bendy::encoding::Error>)
    ensures
        r is Ok,
        (r->Ok_0)@ == bencode_list(values@),
{
    values.to_bencode()
}

/// Reads a bencoded list of integers from the start of the bytes, through
/// `FromBencode::from_bencode` of the `bendy` crate, for `Vec<u64>`.
/// The contract claims: where the bytes start with the bencode form of a list of numbers,
/// those numbers come back; and whatever comes back is a list of numbers whose bencode form
/// the bytes start with. The crate reads integers in their canonical form only (no sign,
/// no leading zero), refuses nested lists and other objects, and leaves what follows the
/// list unread.
#[verifier::external_body]
fn bdecode_u64s(bytes: &Vec<u8>) -> (r: Result<Vec<u64>, bendy::decoding::Error>)
    ensures
        forall|v: Seq<u64>, rest: Seq<u8>| #[trigger] (bencode_list(v) + rest) == bytes@
            ==> r is Ok && (r->Ok_0)@ == v,
        r is Ok ==> exists|rest: Seq<u8>| #[trigger] (bencode_list((r->Ok_0)@) + rest) == bytes@,
{
    Vec::<u64>::from_bencode(bytes.as_slice())
}

/// The words of a brick: a tag, then the content
pub open spec fn brick_words(b: BrickData) -> Seq<u64> {
    match b {
        BrickData::Empty => seq![0u64],
        BrickData::Solid(v) => seq![1u64, v as u64],
        BrickData::Parted(vals) => seq![2u64] + vals@.map_values(|x: u32| x as u64),
    }
}

/// The parts one after the other
pub open spec fn concat_words(parts: Seq<Seq<u64>>) -> Seq<u64>
    decreases parts.len(),
{
    if parts.len() == 0 {
        Seq::empty()
    } else {
        concat_words(parts.drop_last()) + parts.last()
    }
}

/// The words of each brick
pub open spec fn bricks_words(bs: Seq<BrickData>) -> Seq<Seq<u64>> {
    bs.map_values(|b: BrickData| brick_words(b))
}

/// The words of the content of a node: a tag, then the content
pub open spec fn content_words(c: NodeContent) -> Seq<u64> {
    match c {
        NodeContent::Nothing => seq![0u64],
        NodeContent::Internal(o) => seq![1u64, o],
        NodeContent::Leaf(bricks) => seq![2u64] + concat_words(bricks_words(bricks@)),
        NodeContent::UniformLeaf(b) => seq![3u64] + brick_words(b),
    }
}

/// The words of the connection of a node to its children: a tag, then the content
pub open spec fn children_words(c: NodeChildren) -> Seq<u64> {
    match c {
        NodeChildren::NoChildren => seq![0u64],
        NodeChildren::Children(keys) => seq![1u64] + keys@.map_values(|k: u32| k as u64),
        NodeChildren::OccupancyBitmap(o) => seq![2u64, o],
    }
}

/// The words of a cube: its corner, then its size
pub open spec fn cube_words(c: Cube) -> Seq<u64> {
    seq![c.min_position.x as u64, c.min_position.y as u64, c.min_position.z as u64, c.size as u64]
}

/// The words of a resampling method, set or not: a tag, then its threshold
pub open spec fn method_words(m: Option<MIPResamplingMethods>) -> Seq<u64> {
    match m {
        None => seq![0u64, 0u64],
        Some(MIPResamplingMethods::BoxFilter) => seq![1u64, 0u64],
        Some(MIPResamplingMethods::PointFilter) => seq![2u64, 0u64],
        Some(MIPResamplingMethods::PointFilterBD) => seq![3u64, 0u64],
        Some(MIPResamplingMethods::Posterize(t)) => seq![4u64, t as u64],
        Some(MIPResamplingMethods::PosterizeBD(t)) => seq![5u64, t as u64],
    }
}

/// The words of a color matching threshold, set or not
pub open spec fn threshold_words(t: Option<u32>) -> Seq<u64> {
    match t {
        None => seq![0u64, 0u64],
        Some(x) => seq![1u64, x as u64],
    }
}

/// The number of MIP levels a tree can have, the levels the MIP map strategy is stored for
pub const STORED_MIP_LEVELS: usize = 32;

/// The words of each of the stored levels of a strategy
pub open spec fn strategy_parts(s: MIPMapStrategy) -> Seq<Seq<u64>> {
    Seq::new(
        STORED_MIP_LEVELS as nat,
        |l: int| method_words(s.method_entry(l as usize)) + threshold_words(s.threshold_entry(l as usize)),
    )
}

/// The words of a MIP map strategy: whether it is enabled, then the method and the threshold
/// of each of the first `STORED_MIP_LEVELS` levels
pub open spec fn strategy_words(s: MIPMapStrategy) -> Seq<u64> {
    seq![if s.spec_enabled() { 1u64 } else { 0u64 }] + concat_words(strategy_parts(s))
}

/// The words of a color: its four channels
pub open spec fn color_words(c: Albedo) -> Seq<u64> {
    seq![c.r as u64, c.g as u64, c.b as u64, c.a as u64]
}

/// The words of a node: its content, its children, its MIP map and its bounds
pub open spec fn node_words_of(c: NodeContent, ch: NodeChildren, mip: BrickData, bounds: Cube) -> Seq<u64> {
    content_words(c) + children_words(ch) + brick_words(mip) + cube_words(bounds)
}

/// The words of each color
pub open spec fn colors_parts(cs: Seq<Albedo>) -> Seq<Seq<u64>> {
    cs.map_values(|c: Albedo| color_words(c))
}

/// The words of user data values
pub open spec fn datas_words(ds: Seq<u32>) -> Seq<u64> {
    ds.map_values(|d: u32| d as u64)
}

impl BoxTree<u32> {
    /// The words of a node: its content, its children, its MIP map and its bounds
    pub closed spec fn node_words(&self, k: int) -> Seq<u64> {
        node_words_of(self.nodes@[k], self.node_children@[k], self.node_mips@[k], self.node_bounds@[k])
    }

    /// The words a tree is stored as: the version of the library, the size, the brick
    /// dimension, whether the tree simplifies, the MIP map strategy, the color palette, the
    /// data palette and the nodes, each list preceded by its length
    pub closed spec fn tree_words(&self) -> Seq<u64> {
        seq![0u64, 1u64, 0u64, self.boxtree_size as u64, self.brick_dim as u64, if self.auto_simplify { 1u64 } else { 0u64 }]
            + strategy_words(self.mip_map_strategy)
            + seq![self.voxel_color_palette@.len() as u64]
            + concat_words(colors_parts(self.voxel_color_palette@))
            + seq![self.voxel_data_palette@.len() as u64]
            + datas_words(self.voxel_data_palette@)
            + seq![self.nodes@.len() as u64]
            + concat_words(Seq::new(self.nodes@.len(), |k: int| self.node_words(k)))
    }

    /// The bytes a tree is stored as
    pub open spec fn tree_bytes(&self) -> Seq<u8> {
        bencode_list(self.tree_words())
    }
}

/// Concatenating one more part appends it
pub(crate) proof fn lemma_concat_words_push(parts: Seq<Seq<u64>>, k: int)
    requires
        0 <= k < parts.len(),
    ensures
        concat_words(parts.subrange(0, k + 1)) == concat_words(parts.subrange(0, k)) + parts[k],
{
    assert(parts.subrange(0, k + 1).drop_last() =~= parts.subrange(0, k));
}

/// Appends the words of a brick
fn push_brick(out: &mut Vec<u64>, b: &BrickData)
    ensures
        final(out)@ == old(out)@ + brick_words(*b),
{
    match b {
        BrickData::Empty => {
            out.push(0);
            assert(final(out)@ =~= old(out)@ + brick_words(*b));
        },
        BrickData::Solid(v) => {
            out.push(1);
            out.push(*v as u64);
            assert(out@ =~= old(out)@ + brick_words(*b));
        },
        BrickData::Parted(vals) => {
            out.push(2);
            let ghost start = out@;
            let mut i: usize = 0;
            while i < vals.len()
                invariant
                    i <= vals@.len(),
                    out@ == start + vals@.subrange(0, i as int).map_values(|x: u32| x as u64),
                decreases vals@.len() - i,
            {
                out.push(vals[i] as u64);
                assert(vals@.subrange(0, i + 1).map_values(|x: u32| x as u64) =~= vals@.subrange(0, i as int).map_values(|x: u32| x as u64).push(vals@[i as int] as u64));
                i += 1;
            }
            assert(vals@.subrange(0, vals@.len() as int) =~= vals@);
            assert(out@ =~= old(out)@ + brick_words(*b));
        },
    }
}

/// Appends the words of the content of a node
fn push_content(out: &mut Vec<u64>, c: &NodeContent)
    ensures
        final(out)@ == old(out)@ + content_words(*c),
{
    match c {
        NodeContent::Nothing => {
            out.push(0);
            assert(out@ =~= old(out)@ + content_words(*c));
        },
        NodeContent::Internal(o) => {
            out.push(1);
            out.push(*o);
            assert(out@ =~= old(out)@ + content_words(*c));
        },
        NodeContent::Leaf(bricks) => {
            out.push(2);
            let ghost start = out@;
            let ghost parts = bricks_words(bricks@);
            let mut i: usize = 0;
            assert(parts.subrange(0, 0) =~= Seq::<Seq<u64>>::empty());
            assert(start + concat_words(parts.subrange(0, 0)) =~= start);
            while i < bricks.len()
                invariant
                    i <= bricks@.len(),
                    parts == bricks_words(bricks@),
                    out@ == start + concat_words(parts.subrange(0, i as int)),
                decreases bricks@.len() - i,
            {
                push_brick(out, &bricks[i]);
                proof {
                    lemma_concat_words_push(parts, i as int);
                    assert(out@ =~= start + concat_words(parts.subrange(0, i + 1)));
                }
                i += 1;
            }
            assert(parts.subrange(0, bricks@.len() as int) =~= parts);
            assert(out@ =~= old(out)@ + content_words(*c));
        },
        NodeContent::UniformLeaf(b) => {
            out.push(3);
            push_brick(out, b);
            assert(out@ =~= old(out)@ + content_words(*c));
        },
    }
}

/// Appends the words of the connection of a node to its children
fn push_children(out: &mut Vec<u64>, c: &NodeChildren)
    ensures
        final(out)@ == old(out)@ + children_words(*c),
{
    match c {
        NodeChildren::NoChildren => {
            out.push(0);
            assert(out@ =~= old(out)@ + children_words(*c));
        },
        NodeChildren::Children(keys) => {
            out.push(1);
            let ghost start = out@;
            let mut i: usize = 0;
            while i < keys.len()
                invariant
                    i <= keys@.len(),
                    out@ == start + keys@.subrange(0, i as int).map_values(|k: u32| k as u64),
                decreases keys@.len() - i,
            {
                out.push(keys[i] as u64);
                assert(keys@.subrange(0, i + 1).map_values(|k: u32| k as u64) =~= keys@.subrange(0, i as int).map_values(|k: u32| k as u64).push(keys@[i as int] as u64));
                i += 1;
            }
            assert(keys@.subrange(0, keys@.len() as int) =~= keys@);
            assert(out@ =~= old(out)@ + children_words(*c));
        },
        NodeChildren::OccupancyBitmap(o) => {
            out.push(2);
            out.push(*o);
            assert(out@ =~= old(out)@ + children_words(*c));
        },
    }
}

/// Appends the words of a resampling method, set or not
fn push_method(out: &mut Vec<u64>, m: Option<MIPResamplingMethods>)
    ensures
        final(out)@ == old(out)@ + method_words(m),
{
    let (tag, param): (u64, u64) = match m {
        None => (0, 0),
        Some(MIPResamplingMethods::BoxFilter) => (1, 0),
        Some(MIPResamplingMethods::PointFilter) => (2, 0),
        Some(MIPResamplingMethods::PointFilterBD) => (3, 0),
        Some(MIPResamplingMethods::Posterize(t)) => (4, t as u64),
        Some(MIPResamplingMethods::PosterizeBD(t)) => (5, t as u64),
    };
    out.push(tag);
    out.push(param);
    assert(out@ =~= old(out)@ + method_words(m));
}

/// Appends the words of a color matching threshold, set or not
fn push_threshold(out: &mut Vec<u64>, t: Option<u32>)
    ensures
        final(out)@ == old(out)@ + threshold_words(t),
{
    match t {
        None => {
            out.push(0);
            out.push(0);
        },
        Some(x) => {
            out.push(1);
            out.push(x as u64);
        },
    }
    assert(out@ =~= old(out)@ + threshold_words(t));
}

/// Appends the words of a MIP map strategy
fn push_strategy(out: &mut Vec<u64>, s: &MIPMapStrategy)
    ensures
        final(out)@ == old(out)@ + strategy_words(*s),
{
    out.push(if s.is_enabled() { 1 } else { 0 });
    let ghost start = out@;
    let ghost parts = strategy_parts(*s);
    assert(parts.subrange(0, 0) =~= Seq::<Seq<u64>>::empty());
    assert(start + concat_words(parts.subrange(0, 0)) =~= start);
    let mut l: usize = 0;
    while l < STORED_MIP_LEVELS
        invariant
            l <= STORED_MIP_LEVELS,
            parts == strategy_parts(*s),
            out@ == start + concat_words(parts.subrange(0, l as int)),
        decreases STORED_MIP_LEVELS - l,
    {
        let ghost before = out@;
        push_method(out, s.method_if_set(l));
        push_threshold(out, s.threshold_if_set(l));
        proof {
            assert(out@ =~= before + parts[l as int]);
            lemma_concat_words_push(parts, l as int);
            assert(out@ =~= start + concat_words(parts.subrange(0, l + 1)));
        }
        l += 1;
    }
    assert(parts.subrange(0, STORED_MIP_LEVELS as int) =~= parts);
    assert(out@ =~= old(out)@ + strategy_words(*s));
}

impl BoxTree<u32> {
    /// Appends the words of a node
    fn push_node(&self, out: &mut Vec<u64>, k: usize)
        requires
            k < self.nodes@.len(),
            self.wf(),
        ensures
            final(out)@ == old(out)@ + self.node_words(k as int),
    {
        proof {
            assert(self.node_wf(k as int));
        }
        push_content(out, &self.nodes[k]);
        push_children(out, &self.node_children[k]);
        push_brick(out, &self.node_mips[k]);
        let c = self.node_bounds[k];
        out.push(c.min_position.x as u64);
        out.push(c.min_position.y as u64);
        out.push(c.min_position.z as u64);
        out.push(c.size as u64);
        assert(out@ =~= old(out)@ + self.node_words(k as int));
    }

    /// The words the tree is stored as
    pub(crate) fn words(&self) -> (r: Vec<u64>)
        requires
            self.wf(),
        ensures
            r@ == self.tree_words(),
    {
        let mut out: Vec<u64> = Vec::new();
        out.push(0);
        out.push(1);
        out.push(0);
        out.push(self.boxtree_size as u64);
        out.push(self.brick_dim as u64);
        out.push(if self.auto_simplify { 1 } else { 0 });
        push_strategy(&mut out, &self.mip_map_strategy);
        let ghost after_strategy = out@;
        out.push(self.voxel_color_palette.len() as u64);
        let ghost start_colors = out@;
        let ghost cparts = colors_parts(self.voxel_color_palette@);
        assert(cparts.subrange(0, 0) =~= Seq::<Seq<u64>>::empty());
        assert(start_colors + concat_words(cparts.subrange(0, 0)) =~= start_colors);
        let mut i: usize = 0;
        while i < self.voxel_color_palette.len()
            invariant
                i <= self.voxel_color_palette@.len(),
                cparts == colors_parts(self.voxel_color_palette@),
                out@ == start_colors + concat_words(cparts.subrange(0, i as int)),
            decreases self.voxel_color_palette@.len() - i,
        {
            let c = self.voxel_color_palette[i];
            let ghost before = out@;
            out.push(c.r as u64);
            out.push(c.g as u64);
            out.push(c.b as u64);
            out.push(c.a as u64);
            proof {
                assert(out@ =~= before + cparts[i as int]);
                lemma_concat_words_push(cparts, i as int);
                assert(out@ =~= start_colors + concat_words(cparts.subrange(0, i + 1)));
            }
            i += 1;
        }
        assert(cparts.subrange(0, self.voxel_color_palette@.len() as int) =~= cparts);
        out.push(self.voxel_data_palette.len() as u64);
        let ghost start_datas = out@;
        let mut i: usize = 0;
        while i < self.voxel_data_palette.len()
            invariant
                i <= self.voxel_data_palette@.len(),
                out@ == start_datas + self.voxel_data_palette@.subrange(0, i as int).map_values(|d: u32| d as u64),
            decreases self.voxel_data_palette@.len() - i,
        {
            out.push(self.voxel_data_palette[i] as u64);
            assert(self.voxel_data_palette@.subrange(0, i + 1).map_values(|d: u32| d as u64) =~= self.voxel_data_palette@.subrange(0, i as int).map_values(|d: u32| d as u64).push(self.voxel_data_palette@[i as int] as u64));
            i += 1;
        }
        assert(self.voxel_data_palette@.subrange(0, self.voxel_data_palette@.len() as int) =~= self.voxel_data_palette@);
        assert(self.voxel_data_palette@.map_values(|d: u32| d as u64) =~= datas_words(self.voxel_data_palette@));
        out.push(self.nodes.len() as u64);
        let ghost start_nodes = out@;
        let ghost nparts = Seq::new(self.nodes@.len(), |k: int| self.node_words(k));
        assert(nparts.subrange(0, 0) =~= Seq::<Seq<u64>>::empty());
        assert(start_nodes + concat_words(nparts.subrange(0, 0)) =~= start_nodes);
        let mut k: usize = 0;
        while k < self.nodes.len()
            invariant
                self.wf(),
                k <= self.nodes@.len(),
                nparts == Seq::new(self.nodes@.len(), |k: int| self.node_words(k)),
                out@ == start_nodes + concat_words(nparts.subrange(0, k as int)),
            decreases self.nodes@.len() - k,
        {
            self.push_node(&mut out, k);
            proof {
                lemma_concat_words_push(nparts, k as int);
                assert(out@ =~= start_nodes + concat_words(nparts.subrange(0, k + 1)));
            }
            k += 1;
        }
        assert(nparts.subrange(0, self.nodes@.len() as int) =~= nparts);
        assert(out@ =~= self.tree_words());
        out
    }

    /// Converts the tree to bytes
    pub fn to_bytes(&self) -> (r: Vec<u8>)
        requires
            self.wf(),
        ensures
            r@ == self.tree_bytes(),
    {
        let words = self.words();
        match bencode_u64s(&words) {
            Ok(bytes) => bytes,
            Err(_) => {
                proof {
                    assert(false);
                }
                Vec::new()
            },
        }
    }
}

/// Checks that a palette index points into palettes of the given sizes or marks a part absent
fn pix_valid_exec(v: u32, nc: usize, nd: usize) -> (r: bool)
    ensures
        r == pix_valid(v, nc as nat, nd as nat),
{
    let ci = v >> 16u32;
    let di = v & 0xFFFFu32;
    ((ci as usize) < nc || ci == 0xFFFF) && ((di as usize) < nd || di == 0xFFFF)
}

/// Reads a brick at `pos`, one valid for bricks of edge `dim` and palettes of the given sizes
fn parse_brick(words: &Vec<u64>, pos: usize, dim: u32, nc: usize, nd: usize) -> (r: Option<(BrickData, usize)>)
    requires
        1 <= dim,
    ensures
        r matches Some((b, end)) ==> pos <= end <= words@.len() && words@.subrange(pos as int, end as int) == brick_words(b)
            && brick_valid(b, dim as nat, nc as nat, nd as nat),
        forall|b0: BrickData| brick_valid(b0, dim as nat, nc as nat, nd as nat) && pos + brick_words(b0).len() <= words@.len()
            && words@.subrange(pos as int, pos + brick_words(b0).len()) == #[trigger] brick_words(b0)
            ==> (r matches Some((b, end)) && end == pos + brick_words(b0).len()),
{
    if pos >= words.len() {
        return None;
    }
    let tag = words[pos];
    if tag == 0 {
        assert(words@.subrange(pos as int, pos + 1) =~= brick_words(BrickData::Empty));
        proof {
            assert forall|b0: BrickData| brick_valid(b0, dim as nat, nc as nat, nd as nat) && pos + brick_words(b0).len() <= words@.len()
                && words@.subrange(pos as int, pos + brick_words(b0).len()) == #[trigger] brick_words(b0)
                implies brick_words(b0).len() == 1 by {
                assert(words@.subrange(pos as int, pos + brick_words(b0).len())[0] == words@[pos as int]);
            }
        }
        Some((BrickData::Empty, pos + 1))
    } else if tag == 1 {
        if pos + 1 >= words.len() {
            proof {
                assert forall|b0: BrickData| brick_valid(b0, dim as nat, nc as nat, nd as nat) && pos + brick_words(b0).len() <= words@.len()
                    && words@.subrange(pos as int, pos + brick_words(b0).len()) == #[trigger] brick_words(b0)
                    implies false by {
                    assert(words@.subrange(pos as int, pos + brick_words(b0).len())[0] == words@[pos as int]);
                }
            }
            return None;
        }
        let v = words[pos + 1];
        if v > u32::MAX as u64 || !pix_valid_exec(v as u32, nc, nd) {
            proof {
                assert forall|b0: BrickData| brick_valid(b0, dim as nat, nc as nat, nd as nat) && pos + brick_words(b0).len() <= words@.len()
                    && words@.subrange(pos as int, pos + brick_words(b0).len()) == #[trigger] brick_words(b0)
                    implies false by {
                    let sub = words@.subrange(pos as int, pos + brick_words(b0).len());
                    assert(sub[0] == words@[pos as int]);
                    assert(sub[1] == words@[pos + 1]);
                }
            }
            return None;
        }
        let b = BrickData::Solid(v as u32);
        assert(words@.subrange(pos as int, pos + 2) =~= brick_words(b));
        proof {
            assert forall|b0: BrickData| brick_valid(b0, dim as nat, nc as nat, nd as nat) && pos + brick_words(b0).len() <= words@.len()
                && words@.subrange(pos as int, pos + brick_words(b0).len()) == #[trigger] brick_words(b0)
                implies brick_words(b0).len() == 2 by {
                assert(words@.subrange(pos as int, pos + brick_words(b0).len())[0] == words@[pos as int]);
            }
        }
        Some((b, pos + 2))
    } else if tag == 2 {
        let d = dim as u128;
        assert(d * d <= 0x1_0000_0000 * 0x1_0000_0000 && d * d * d <= 0x1_0000_0000 * 0x1_0000_0000 * 0x1_0000_0000)
            by (nonlinear_arith)
            requires d < 0x1_0000_0000;
        let n_words = d * d * d;
        if n_words > (words.len() - pos - 1) as u128 {
            proof {
                assert forall|b0: BrickData| brick_valid(b0, dim as nat, nc as nat, nd as nat) && pos + brick_words(b0).len() <= words@.len()
                    && words@.subrange(pos as int, pos + brick_words(b0).len()) == #[trigger] brick_words(b0)
                    implies false by {
                    assert(words@.subrange(pos as int, pos + brick_words(b0).len())[0] == words@[pos as int]);
                }
            }
            return None;
        }
        let n = n_words as usize;
        let mut vals: Vec<u32> = Vec::new();
        let mut i: usize = 0;
        let len = words.len();
        while i < n
            invariant
                len == words@.len(),
                words@[pos as int] == 2,
                1 <= dim,
                i <= n,
                n == dim * dim * dim,
                pos + 1 + n <= words@.len(),
                vals@.len() == i,
                vals@.map_values(|x: u32| x as u64) == words@.subrange(pos + 1, pos + 1 + i),
                forall|j: int| 0 <= j < i ==> pix_valid(#[trigger] vals@[j], nc as nat, nd as nat),
            decreases n - i,
        {
            assert(pos + 1 + i < len);
            let w = words[pos + 1 + i];
            if w > u32::MAX as u64 || !pix_valid_exec(w as u32, nc, nd) {
                proof {
                    assert forall|b0: BrickData| brick_valid(b0, dim as nat, nc as nat, nd as nat) && pos + brick_words(b0).len() <= words@.len()
                        && words@.subrange(pos as int, pos + brick_words(b0).len()) == #[trigger] brick_words(b0)
                        implies false by {
                        let sub = words@.subrange(pos as int, pos + brick_words(b0).len());
                        assert(sub[0] == words@[pos as int]);
                        match b0 {
                            BrickData::Parted(vs) => {
                                assert(vs@.len() == n);
                                assert(brick_words(b0).len() == 1 + n);
                                assert(sub[1 + i] == words@[pos + 1 + i]);
                                assert(brick_words(b0)[1 + i] == vs@.map_values(|x: u32| x as u64)[i as int]);
                                assert(sub[1 + i] == vs@[i as int] as u64);
                                assert(pix_valid(vs@[i as int], nc as nat, nd as nat));
                                assert((w as u32) == vs@[i as int]);
                            },
                            _ => {},
                        }
                    }
                }
                return None;
            }
            vals.push(w as u32);
            assert(vals@.map_values(|x: u32| x as u64) =~= words@.subrange(pos + 1, pos + 1 + i + 1));
            i += 1;
        }
        let b = BrickData::Parted(vals);
        assert(words@.subrange(pos as int, pos + 1 + n) =~= brick_words(b));
        proof {
            assert forall|b0: BrickData| brick_valid(b0, dim as nat, nc as nat, nd as nat) && pos + brick_words(b0).len() <= words@.len()
                && words@.subrange(pos as int, pos + brick_words(b0).len()) == #[trigger] brick_words(b0)
                implies brick_words(b0).len() == 1 + n by {
                assert(words@.subrange(pos as int, pos + brick_words(b0).len())[0] == words@[pos as int]);
            }
        }
        Some((b, pos + 1 + n))
    } else {
        proof {
            assert forall|b0: BrickData| brick_valid(b0, dim as nat, nc as nat, nd as nat) && pos + brick_words(b0).len() <= words@.len()
                && words@.subrange(pos as int, pos + brick_words(b0).len()) == #[trigger] brick_words(b0)
                implies false by {
                assert(words@.subrange(pos as int, pos + brick_words(b0).len())[0] == words@[pos as int]);
            }
        }
        None
    }
}

/// The concatenation splits at any part
pub(crate) proof fn lemma_concat_words_split(parts: Seq<Seq<u64>>, k: int)
    requires
        0 <= k <= parts.len(),
    ensures
        concat_words(parts) == concat_words(parts.subrange(0, k)) + concat_words(parts.subrange(k, parts.len() as int)),
    decreases parts.len(),
{
    if k == parts.len() {
        assert(parts.subrange(0, k) =~= parts);
        assert(parts.subrange(k, parts.len() as int) =~= Seq::<Seq<u64>>::empty());
        assert(concat_words(parts) + Seq::<u64>::empty() =~= concat_words(parts));
    } else {
        lemma_concat_words_split(parts.drop_last(), k);
        assert(parts.drop_last().subrange(0, k) =~= parts.subrange(0, k));
        assert(parts.subrange(k, parts.len() as int).drop_last() =~= parts.drop_last().subrange(k, parts.len() - 1));
        assert(parts.subrange(k, parts.len() as int).last() == parts.last());
        assert(concat_words(parts) =~= concat_words(parts.subrange(0, k)) + concat_words(parts.subrange(k, parts.len() as int)));
    }
}

/// Where a run of words is the concatenation of parts, the part at `k` sits right after the
/// concatenation of the parts before it
pub(crate) proof fn lemma_concat_words_at(parts: Seq<Seq<u64>>, k: int)
    requires
        0 <= k < parts.len(),
    ensures
        concat_words(parts.subrange(0, k)).len() + parts[k].len() <= concat_words(parts).len(),
        concat_words(parts).subrange(
            concat_words(parts.subrange(0, k)).len() as int,
            (concat_words(parts.subrange(0, k)).len() + parts[k].len()) as int,
        ) == parts[k],
{
    lemma_concat_words_split(parts, k + 1);
    lemma_concat_words_push(parts, k);
    let a = concat_words(parts.subrange(0, k));
    let rest = concat_words(parts.subrange(k + 1, parts.len() as int));
    assert(concat_words(parts) == a + parts[k] + rest);
    assert((a + parts[k] + rest).subrange(a.len() as int, (a.len() + parts[k].len()) as int) =~= parts[k]);
}

/// Reads `m` bricks one after the other at `pos`
fn parse_bricks(words: &Vec<u64>, pos: usize, m: usize, dim: u32, nc: usize, nd: usize, Ghost(bs0): Ghost<Option<Seq<BrickData>>>) -> (r: Option<(Vec<BrickData>, usize)>)
    requires
        1 <= dim,
        pos <= words@.len(),
        bs0 matches Some(bs) ==> bs.len() == m && (forall|i: int| 0 <= i < bs.len() ==> brick_valid(#[trigger] bs[i], dim as nat, nc as nat, nd as nat))
            && pos + concat_words(bricks_words(bs)).len() <= words@.len()
            && words@.subrange(pos as int, pos + concat_words(bricks_words(bs)).len())
                == concat_words(bricks_words(bs)),
    ensures
        r matches Some((v, end)) ==> pos <= end <= words@.len() && v@.len() == m
            && words@.subrange(pos as int, end as int) == concat_words(bricks_words(v@))
            && forall|i: int| 0 <= i < v@.len() ==> brick_valid(#[trigger] v@[i], dim as nat, nc as nat, nd as nat),
        bs0 matches Some(bs) ==> (r matches Some((v, end)) && end == pos + concat_words(bricks_words(bs)).len()),
{
    let mut v: Vec<BrickData> = Vec::new();
    let mut p = pos;
    let mut i: usize = 0;
    let ghost parts0 = match bs0 { Some(bs) => bricks_words(bs), None => Seq::empty() };
    assert(bricks_words(v@) =~= Seq::<Seq<u64>>::empty());
    assert(words@.subrange(pos as int, pos as int) =~= Seq::<u64>::empty());
    proof {
        if bs0 is Some {
            assert(parts0.subrange(0, 0) =~= Seq::<Seq<u64>>::empty());
        }
    }
    while i < m
        invariant
            1 <= dim,
            i <= m,
            pos <= p <= words@.len(),
            v@.len() == i,
            words@.subrange(pos as int, p as int) == concat_words(bricks_words(v@)),
            forall|j: int| 0 <= j < v@.len() ==> brick_valid(#[trigger] v@[j], dim as nat, nc as nat, nd as nat),
            bs0 matches Some(bs) ==> bs.len() == m && (forall|j: int| 0 <= j < bs.len() ==> brick_valid(#[trigger] bs[j], dim as nat, nc as nat, nd as nat))
                && parts0 == bricks_words(bs)
                && pos + concat_words(parts0).len() <= words@.len()
                && words@.subrange(pos as int, pos + concat_words(parts0).len()) == concat_words(parts0)
                && p == pos + concat_words(parts0.subrange(0, i as int)).len(),
        decreases m - i,
    {
        let ghost b0_opt = match bs0 { Some(bs) => Some(bs[i as int]), None => None };
        proof {
            if let Some(bs) = bs0 {
                let b0 = bs[i as int];
                lemma_concat_words_at(parts0, i as int);
                let a = concat_words(parts0.subrange(0, i as int));
                let whole = concat_words(parts0);
                assert(words@.subrange(p as int, p + brick_words(b0).len()) =~= whole.subrange(a.len() as int, (a.len() + parts0[i as int].len()) as int));
                assert(parts0[i as int] == brick_words(b0));
            }
        }
        let parsed = parse_brick(words, p, dim, nc, nd);
        match parsed {
            Some((b, end)) => {
                let ghost before = v@;
                proof {
                    assert(words@.subrange(pos as int, end as int) =~= words@.subrange(pos as int, p as int) + words@.subrange(p as int, end as int));
                }
                v.push(b);
                assert(bricks_words(v@) =~= bricks_words(before).push(brick_words(b)));
                proof {
                    let vs = bricks_words(v@);
                    assert(vs.subrange(0, i as int) =~= bricks_words(before));
                    lemma_concat_words_push(vs, i as int);
                    assert(vs.subrange(0, i + 1) =~= vs);
                    if let Some(bs) = bs0 {
                        lemma_concat_words_push(parts0, i as int);
                    }
                }
                p = end;
            },
            None => {
                return None;
            },
        }
        i += 1;
    }
    proof {
        if let Some(bs) = bs0 {
            assert(parts0.subrange(0, m as int) =~= parts0);
        }
    }
    Some((v, p))
}

/// The content of a node is consistent with the brick dimension and the palettes
pub open spec fn content_valid(c: NodeContent, dim: nat, nc: nat, nd: nat) -> bool {
    match c {
        NodeContent::Leaf(bricks) => bricks@.len() == 64 && forall|i: int|
            0 <= i < 64 ==> brick_valid(#[trigger] bricks@[i], dim, nc, nd),
        NodeContent::UniformLeaf(b) => (b is Empty || b is Solid) && brick_valid(b, dim, nc, nd),
        _ => true,
    }
}

/// The words at `pos` are `w`
pub open spec fn words_at(words: Seq<u64>, pos: int, w: Seq<u64>) -> bool {
    pos + w.len() <= words.len() && words.subrange(pos, pos + w.len()) == w
}

/// Reads the content of a node at `pos`
fn parse_content(words: &Vec<u64>, pos: usize, dim: u32, nc: usize, nd: usize, Ghost(c0): Ghost<Option<NodeContent>>) -> (r: Option<(NodeContent, usize)>)
    requires
        1 <= dim,
        pos <= words@.len(),
        c0 matches Some(c) ==> content_valid(c, dim as nat, nc as nat, nd as nat) && words_at(words@, pos as int, content_words(c)),
    ensures
        r matches Some((c, end)) ==> pos <= end <= words@.len() && words@.subrange(pos as int, end as int) == content_words(c)
            && content_valid(c, dim as nat, nc as nat, nd as nat),
        c0 matches Some(c) ==> (r matches Some((x, end)) && end == pos + content_words(c).len()),
{
    if pos >= words.len() {
        return None;
    }
    let tag = words[pos];
    proof {
        if let Some(c) = c0 {
            assert(words@.subrange(pos as int, pos + content_words(c).len())[0] == words@[pos as int]);
            assert(content_words(c)[0] == tag);
            match c {
                NodeContent::Nothing => assert(tag == 0),
                NodeContent::Internal(_) => assert(tag == 1),
                NodeContent::Leaf(_) => assert(tag == 2),
                NodeContent::UniformLeaf(_) => assert(tag == 3),
            }
        }
    }
    if tag == 0 {
        assert(words@.subrange(pos as int, pos + 1) =~= content_words(NodeContent::Nothing));
        Some((NodeContent::Nothing, pos + 1))
    } else if tag == 1 {
        if pos + 1 >= words.len() {
            return None;
        }
        let c = NodeContent::Internal(words[pos + 1]);
        assert(words@.subrange(pos as int, pos + 2) =~= content_words(c));
        proof {
            if let Some(c1) = c0 {
                assert(words@.subrange(pos as int, pos + content_words(c1).len())[1] == words@[pos + 1]);
            }
        }
        Some((c, pos + 2))
    } else if tag == 2 {
        let ghost bs0 = match c0 {
            Some(NodeContent::Leaf(bricks)) => Some(bricks@),
            _ => None,
        };
        proof {
            if let Some(NodeContent::Leaf(bricks)) = c0 {
                let cw = concat_words(bricks_words(bricks@));
                let whole = words@.subrange(pos as int, pos + content_words(c0->0).len());
                assert(content_words(c0->0) == seq![2u64] + cw);
                assert(whole == seq![2u64] + cw);
                assert(words@.subrange(pos + 1, pos + 1 + cw.len()) =~= whole.subrange(1, (1 + cw.len()) as int));
                assert(whole.subrange(1, (1 + cw.len()) as int) =~= cw);
                assert(forall|i: int| 0 <= i < bricks@.len() ==> brick_valid(#[trigger] bricks@[i], dim as nat, nc as nat, nd as nat));
            }
        }
        match parse_bricks(words, pos + 1, 64, dim, nc, nd, Ghost(bs0)) {
            Some((bricks, end)) => {
                let c = NodeContent::Leaf(bricks);
                assert(words@.subrange(pos as int, end as int) =~= seq![2u64] + words@.subrange(pos + 1, end as int));
                Some((c, end))
            },
            None => None,
        }
    } else if tag == 3 {
        let ghost b0 = match c0 {
            Some(NodeContent::UniformLeaf(b)) => Some(b),
            _ => None,
        };
        proof {
            if let Some(NodeContent::UniformLeaf(b)) = c0 {
                let bw = brick_words(b);
                let whole = words@.subrange(pos as int, pos + content_words(c0->0).len());
                assert(content_words(c0->0) == seq![3u64] + bw);
                assert(whole == seq![3u64] + bw);
                assert(words@.subrange(pos + 1, pos + 1 + bw.len()) =~= whole.subrange(1, (1 + bw.len()) as int));
                assert(whole.subrange(1, (1 + bw.len()) as int) =~= bw);
            }
        }
        match parse_brick(words, pos + 1, dim, nc, nd) {
            Some((b, end)) => {
                let ok = match &b {
                    BrickData::Parted(_) => false,
                    _ => true,
                };
                if !ok {
                    proof {
                        if let Some(NodeContent::UniformLeaf(b1)) = c0 {
                            assert(words@.subrange(pos + 1, end as int)[0] == words@[pos + 1]);
                            assert(words@.subrange(pos + 1, pos + 1 + brick_words(b1).len())[0] == words@[pos + 1]);
                        }
                    }
                    return None;
                }
                let c = NodeContent::UniformLeaf(b);
                assert(words@.subrange(pos as int, end as int) =~= seq![3u64] + words@.subrange(pos + 1, end as int));
                Some((c, end))
            },
            None => None,
        }
    } else {
        None
    }
}

/// The connection of a node to its children has room for every sectant
pub open spec fn children_valid(c: NodeChildren) -> bool {
    match c {
        NodeChildren::Children(keys) => keys@.len() == 64,
        _ => true,
    }
}

/// Reads the connection of a node to its children at `pos`
fn parse_children(words: &Vec<u64>, pos: usize, Ghost(c0): Ghost<Option<NodeChildren>>) -> (r: Option<(NodeChildren, usize)>)
    requires
        pos <= words@.len(),
        c0 matches Some(c) ==> children_valid(c) && words_at(words@, pos as int, children_words(c)),
    ensures
        r matches Some((c, end)) ==> pos <= end <= words@.len() && words@.subrange(pos as int, end as int) == children_words(c)
            && children_valid(c),
        c0 matches Some(c) ==> (r matches Some((x, end)) && end == pos + children_words(c).len()),
{
    if pos >= words.len() {
        return None;
    }
    let tag = words[pos];
    proof {
        if let Some(c) = c0 {
            assert(words@.subrange(pos as int, pos + children_words(c).len())[0] == words@[pos as int]);
            assert(children_words(c)[0] == tag);
            match c {
                NodeChildren::NoChildren => assert(tag == 0),
                NodeChildren::Children(_) => assert(tag == 1),
                NodeChildren::OccupancyBitmap(_) => assert(tag == 2),
            }
        }
    }
    if tag == 0 {
        assert(words@.subrange(pos as int, pos + 1) =~= children_words(NodeChildren::NoChildren));
        Some((NodeChildren::NoChildren, pos + 1))
    } else if tag == 2 {
        if pos + 1 >= words.len() {
            return None;
        }
        let c = NodeChildren::OccupancyBitmap(words[pos + 1]);
        assert(words@.subrange(pos as int, pos + 2) =~= children_words(c));
        proof {
            if let Some(c1) = c0 {
                assert(words@.subrange(pos as int, pos + children_words(c1).len())[1] == words@[pos + 1]);
            }
        }
        Some((c, pos + 2))
    } else if tag == 1 {
        let len = words.len();
        if len - pos - 1 < 64 {
            return None;
        }
        let mut keys: Vec<u32> = Vec::new();
        let mut i: usize = 0;
        while i < 64
            invariant
                len == words@.len(),
                pos + 1 + 64 <= len,
                words@[pos as int] == 1,
                i <= 64,
                keys@.len() == i,
                keys@.map_values(|k: u32| k as u64) == words@.subrange(pos + 1, pos + 1 + i),
                c0 matches Some(c) ==> children_valid(c) && words_at(words@, pos as int, children_words(c)),
            decreases 64 - i,
        {
            let w = words[pos + 1 + i];
            if w > u32::MAX as u64 {
                proof {
                    if let Some(c) = c0 {
                        let sub = words@.subrange(pos as int, pos + children_words(c).len());
                        assert(sub[0] == words@[pos as int]);
                        match c {
                            NodeChildren::Children(ks) => {
                                assert(sub[1 + i] == words@[pos + 1 + i]);
                                assert(children_words(c)[1 + i] == ks@.map_values(|k: u32| k as u64)[i as int]);
                            },
                            _ => {},
                        }
                    }
                }
                return None;
            }
            keys.push(w as u32);
            assert(keys@.map_values(|k: u32| k as u64) =~= words@.subrange(pos + 1, pos + 1 + i + 1));
            i += 1;
        }
        let c = NodeChildren::Children(keys);
        assert(words@.subrange(pos as int, pos + 65) =~= children_words(c));
        proof {
            if let Some(c1) = c0 {
                assert(words@.subrange(pos as int, pos + children_words(c1).len())[0] == words@[pos as int]);
            }
        }
        Some((c, pos + 65))
    } else {
        None
    }
}

/// Reads the bounds of a node at `pos`
fn parse_cube(words: &Vec<u64>, pos: usize) -> (r: Option<(Cube, usize)>)
    requires
        pos <= words@.len(),
    ensures
        r matches Some((c, end)) ==> end == pos + 4 && end <= words@.len() && words@.subrange(pos as int, end as int) == cube_words(c),
        forall|c0: Cube| words_at(words@, pos as int, #[trigger] cube_words(c0)) ==> r is Some,
{
    if words.len() - pos < 4 {
        return None;
    }
    let x = words[pos];
    let y = words[pos + 1];
    let z = words[pos + 2];
    let size = words[pos + 3];
    if x > u32::MAX as u64 || y > u32::MAX as u64 || z > u32::MAX as u64 || size > u32::MAX as u64 {
        proof {
            assert forall|c0: Cube| words_at(words@, pos as int, #[trigger] cube_words(c0)) implies false by {
                let sub = words@.subrange(pos as int, pos + 4);
                assert(sub[0] == x && sub[1] == y && sub[2] == z && sub[3] == size);
            }
        }
        return None;
    }
    let c = Cube { min_position: V3c { x: x as u32, y: y as u32, z: z as u32 }, size: size as u32 };
    assert(words@.subrange(pos as int, pos + 4) =~= cube_words(c));
    Some((c, pos + 4))
}

/// Reads a node at `pos`: its content, its children, its MIP map and its bounds
fn parse_node(words: &Vec<u64>, pos: usize, dim: u32, nc: usize, nd: usize, Ghost(n0): Ghost<Option<(NodeContent, NodeChildren, BrickData, Cube)>>) -> (r: Option<((NodeContent, NodeChildren, BrickData, Cube), usize)>)
    requires
        1 <= dim,
        pos <= words@.len(),
        n0 matches Some(n) ==> content_valid(n.0, dim as nat, nc as nat, nd as nat) && children_valid(n.1)
            && brick_valid(n.2, dim as nat, nc as nat, nd as nat)
            && words_at(words@, pos as int, node_words_of(n.0, n.1, n.2, n.3)),
    ensures
        r matches Some((n, end)) ==> pos <= end <= words@.len() && words@.subrange(pos as int, end as int) == node_words_of(n.0, n.1, n.2, n.3)
            && content_valid(n.0, dim as nat, nc as nat, nd as nat) && children_valid(n.1)
            && brick_valid(n.2, dim as nat, nc as nat, nd as nat),
        n0 matches Some(n) ==> (r matches Some((x, end)) && end == pos + node_words_of(n.0, n.1, n.2, n.3).len()),
        n0 matches Some(n) ==> (r matches Some((x, end)) && content_words(x.0) == content_words(n.0)
            && children_words(x.1) == children_words(n.1) && brick_words(x.2) == brick_words(n.2) && x.3 == n.3),
{
    let ghost c0 = match n0 { Some(n) => Some(n.0), None => None };
    let ghost ch0 = match n0 { Some(n) => Some(n.1), None => None };
    let ghost m0 = match n0 { Some(n) => Some(n.2), None => None };
    let ghost p1 = match n0 { Some(n) => pos + content_words(n.0).len(), None => 0 };
    let ghost p2 = match n0 { Some(n) => p1 + children_words(n.1).len(), None => 0 };
    let ghost p3 = match n0 { Some(n) => p2 + brick_words(n.2).len(), None => 0 };
    proof {
        if let Some(n) = n0 {
            let all = node_words_of(n.0, n.1, n.2, n.3);
            let whole = words@.subrange(pos as int, pos + all.len());
            assert(whole == all);
            assert(words@.subrange(pos as int, p1) =~= whole.subrange(0, p1 - pos));
            assert(all.subrange(0, p1 - pos) =~= content_words(n.0));
            assert(words@.subrange(p1, p2) =~= whole.subrange(p1 - pos, p2 - pos));
            assert(all.subrange(p1 - pos, p2 - pos) =~= children_words(n.1));
            assert(words@.subrange(p2, p3) =~= whole.subrange(p2 - pos, p3 - pos));
            assert(all.subrange(p2 - pos, p3 - pos) =~= brick_words(n.2));
            assert(words@.subrange(p3, p3 + 4) =~= whole.subrange(p3 - pos, p3 - pos + 4));
            assert(all.subrange(p3 - pos, p3 - pos + 4) =~= cube_words(n.3));
        }
    }
    let (content, e1) = match parse_content(words, pos, dim, nc, nd, Ghost(c0)) {
        Some(x) => x,
        None => { return None; },
    };
    let (children, e2) = match parse_children(words, e1, Ghost(ch0)) {
        Some(x) => x,
        None => { return None; },
    };
    proof {
        if let Some(n) = n0 {
            assert(brick_words(n.2) == words@.subrange(e2 as int, e2 + brick_words(n.2).len()));
        }
    }
    let (mip, e3) = match parse_brick(words, e2, dim, nc, nd) {
        Some(x) => x,
        None => { return None; },
    };
    let (bounds, e4) = match parse_cube(words, e3) {
        Some(x) => x,
        None => {
            proof {
                if let Some(n) = n0 {
                    assert(words_at(words@, e3 as int, cube_words(n.3)));
                }
            }
            return None;
        },
    };
    let n = (content, children, mip, bounds);
    proof {
        assert(words@.subrange(pos as int, e4 as int) =~= words@.subrange(pos as int, e1 as int) + words@.subrange(e1 as int, e2 as int)
            + words@.subrange(e2 as int, e3 as int) + words@.subrange(e3 as int, e4 as int));
        if let Some(n1) = n0 {
            assert(cube_words(bounds) == cube_words(n1.3));
            assert(bounds.min_position == n1.3.min_position);
        }
    }
    Some((n, e4))
}

/// Reads the method and the threshold of one MIP level at `pos`
fn parse_level(words: &Vec<u64>, pos: usize) -> (r: Option<(Option<MIPResamplingMethods>, Option<u32>)>)
    requires
        pos <= words@.len(),
    ensures
        r matches Some((m, t)) ==> pos + 4 <= words@.len()
            && words@.subrange(pos as int, pos + 4) == method_words(m) + threshold_words(t),
        forall|m0: Option<MIPResamplingMethods>, t0: Option<u32>|
            words_at(words@, pos as int, #[trigger] (method_words(m0) + threshold_words(t0))) ==> r is Some,
{
    if words.len() - pos < 4 {
        return None;
    }
    let tag = words[pos];
    let param = words[pos + 1];
    let ttag = words[pos + 2];
    let tval = words[pos + 3];
    let ghost sub = words@.subrange(pos as int, pos + 4);
    assert(sub[0] == tag && sub[1] == param && sub[2] == ttag && sub[3] == tval);
    let m: Option<MIPResamplingMethods> = if tag == 0 && param == 0 {
        None
    } else if tag == 1 && param == 0 {
        Some(MIPResamplingMethods::BoxFilter)
    } else if tag == 2 && param == 0 {
        Some(MIPResamplingMethods::PointFilter)
    } else if tag == 3 && param == 0 {
        Some(MIPResamplingMethods::PointFilterBD)
    } else if tag == 4 && param <= u32::MAX as u64 {
        Some(MIPResamplingMethods::Posterize(param as u32))
    } else if tag == 5 && param <= u32::MAX as u64 {
        Some(MIPResamplingMethods::PosterizeBD(param as u32))
    } else {
        proof {
            assert forall|m0: Option<MIPResamplingMethods>, t0: Option<u32>|
                words_at(words@, pos as int, #[trigger] (method_words(m0) + threshold_words(t0))) implies false by {
                let w = method_words(m0) + threshold_words(t0);
                assert(w[0] == tag && w[1] == param);
            }
        }
        return None;
    };
    let t: Option<u32> = if ttag == 0 && tval == 0 {
        None
    } else if ttag == 1 && tval <= u32::MAX as u64 {
        Some(tval as u32)
    } else {
        proof {
            assert forall|m0: Option<MIPResamplingMethods>, t0: Option<u32>|
                words_at(words@, pos as int, #[trigger] (method_words(m0) + threshold_words(t0))) implies false by {
                let w = method_words(m0) + threshold_words(t0);
                assert(w[2] == ttag && w[3] == tval);
            }
        }
        return None;
    };
    assert(sub =~= method_words(m) + threshold_words(t));
    Some((m, t))
}

/// The words of the levels with the given methods and thresholds
pub open spec fn level_parts(ms: Seq<Option<MIPResamplingMethods>>, ts: Seq<Option<u32>>) -> Seq<Seq<u64>> {
    Seq::new(ms.len(), |i: int| method_words(ms[i]) + threshold_words(ts[i]))
}

/// Every level of a strategy takes four words
pub(crate) proof fn lemma_strategy_parts_len(s0: MIPMapStrategy, k: int)
    requires
        0 <= k <= STORED_MIP_LEVELS,
    ensures
        concat_words(strategy_parts(s0).subrange(0, k)).len() == 4 * k,
    decreases k,
{
    let parts = strategy_parts(s0);
    if k == 0 {
        assert(parts.subrange(0, 0) =~= Seq::<Seq<u64>>::empty());
    } else {
        lemma_strategy_parts_len(s0, k - 1);
        lemma_concat_words_push(parts, k - 1);
        assert(parts[k - 1].len() == 4);
    }
}

/// Where a strategy is stored at `pos`, and the words of its first `l` levels follow the
/// enabled flag, the words of level `l` come next
proof fn lemma_strategy_level_at(words: Seq<u64>, pos: int, s0: MIPMapStrategy, l: int, p: int)
    requires
        0 <= pos,
        0 <= l < STORED_MIP_LEVELS,
        words_at(words, pos, strategy_words(s0)),
        p == pos + 1 + 4 * l,
        words.subrange(pos + 1, p) == concat_words(strategy_parts(s0).subrange(0, l)),
    ensures
        words_at(words, p, strategy_parts(s0)[l]),
        words.subrange(pos + 1, p + 4) == concat_words(strategy_parts(s0).subrange(0, l + 1)),
{
    let parts = strategy_parts(s0);
    assert(strategy_words(s0) == seq![if s0.spec_enabled() { 1u64 } else { 0u64 }] + concat_words(parts));
    lemma_strategy_parts_len(s0, l);
    lemma_strategy_parts_len(s0, STORED_MIP_LEVELS as int);
    assert(parts.subrange(0, STORED_MIP_LEVELS as int) =~= parts);
    lemma_concat_words_at(parts, l);
    lemma_concat_words_push(parts, l);
    let whole = words.subrange(pos, pos + strategy_words(s0).len());
    let cw = concat_words(parts);
    let a = concat_words(parts.subrange(0, l));
    assert(a.len() == 4 * l);
    assert(parts[l].len() == 4);
    assert(words.subrange(p, p + 4) =~= whole.subrange(1 + 4 * l, 1 + 4 * l + 4));
    assert(whole.subrange(1 + 4 * l, 1 + 4 * l + 4) =~= cw.subrange(4 * l, 4 * l + 4));
    assert(words.subrange(pos + 1, p + 4) =~= words.subrange(pos + 1, p) + words.subrange(p, p + 4));
}

/// Reads a MIP map strategy at `pos`
fn parse_strategy(words: &Vec<u64>, pos: usize) -> (r: Option<(MIPMapStrategy, usize)>)
    requires
        pos <= words@.len(),
    ensures
        r matches Some((s, end)) ==> pos <= end <= words@.len() && words@.subrange(pos as int, end as int) == strategy_words(s),
        forall|s0: MIPMapStrategy| words_at(words@, pos as int, #[trigger] strategy_words(s0)) ==> r is Some,
{
    let len = words.len();
    if pos >= len {
        return None;
    }
    let e = words[pos];
    if e > 1 {
        proof {
            assert forall|s0: MIPMapStrategy| words_at(words@, pos as int, #[trigger] strategy_words(s0)) implies false by {
                assert(words@.subrange(pos as int, pos + strategy_words(s0).len())[0] == e);
            }
        }
        return None;
    }
    let enabled = e == 1;
    let mut methods: Vec<Option<MIPResamplingMethods>> = Vec::new();
    let mut thrs: Vec<Option<u32>> = Vec::new();
    let mut p = pos + 1;
    let mut l: usize = 0;
    assert(words@.subrange(pos + 1, pos + 1) =~= concat_words(Seq::<Seq<u64>>::empty()));
    assert(level_parts(methods@, thrs@) =~= Seq::<Seq<u64>>::empty());
    proof {
        assert forall|s0: MIPMapStrategy| #![trigger strategy_words(s0)] words_at(words@, pos as int, strategy_words(s0)) implies
            words@.subrange(pos + 1, p as int) == concat_words(strategy_parts(s0).subrange(0, 0)) by {
            assert(strategy_parts(s0).subrange(0, 0) =~= Seq::<Seq<u64>>::empty());
        }
    }
    while l < STORED_MIP_LEVELS
        invariant
            len == words@.len(),
            pos < len,
            words@[pos as int] == e,
            e <= 1,
            enabled == (e == 1),
            l <= STORED_MIP_LEVELS,
            methods@.len() == l,
            thrs@.len() == l,
            p == pos + 1 + 4 * l,
            p <= len,
            words@.subrange(pos + 1, p as int) == concat_words(level_parts(methods@, thrs@)),
            forall|s0: MIPMapStrategy| #![trigger strategy_words(s0)] words_at(words@, pos as int, strategy_words(s0))
                ==> words@.subrange(pos + 1, p as int) == concat_words(strategy_parts(s0).subrange(0, l as int)),
        decreases STORED_MIP_LEVELS - l,
    {
        proof {
            assert forall|s0: MIPMapStrategy| words_at(words@, pos as int, #[trigger] strategy_words(s0)) implies
                words_at(words@, p as int, method_words(s0.method_entry(l as usize)) + threshold_words(s0.threshold_entry(l as usize))) by {
                lemma_strategy_level_at(words@, pos as int, s0, l as int, p as int);
            }
        }
        let (m, t) = match parse_level(words, p) {
            Some(x) => x,
            None => { return None; },
        };
        assert(p + 4 <= len);
        let ghost before_m = methods@;
        let ghost before_t = thrs@;
        methods.push(m);
        thrs.push(t);
        proof {
            let ps = level_parts(methods@, thrs@);
            assert(ps.subrange(0, l as int) =~= level_parts(before_m, before_t));
            lemma_concat_words_push(ps, l as int);
            assert(ps.subrange(0, l + 1) =~= ps);
            assert(words@.subrange(pos + 1, p + 4) =~= words@.subrange(pos + 1, p as int) + words@.subrange(p as int, p + 4));
            assert forall|s0: MIPMapStrategy| #![trigger strategy_words(s0)] words_at(words@, pos as int, strategy_words(s0)) implies
                words@.subrange(pos + 1, p + 4) == concat_words(strategy_parts(s0).subrange(0, l + 1)) by {
                lemma_strategy_level_at(words@, pos as int, s0, l as int, p as int);
            }
        }
        p = p + 4;
        l += 1;
    }
    let s = MIPMapStrategy::with_levels(enabled, &methods, &thrs);
    proof {
        assert(strategy_parts(s) =~= level_parts(methods@, thrs@));
        assert(words@.subrange(pos as int, p as int) =~= seq![e] + words@.subrange(pos + 1, p as int));
        assert(words@.subrange(pos as int, p as int) =~= strategy_words(s));
    }
    Some((s, p))
}

/// Reads a color palette at `pos`: its length, then the channels of each color
fn parse_colors(words: &Vec<u64>, pos: usize) -> (r: Option<(Vec<Albedo>, usize)>)
    requires
        pos <= words@.len(),
    ensures
        r matches Some((cs, end)) ==> pos <= end <= words@.len()
            && words@.subrange(pos as int, end as int) == seq![cs@.len() as u64] + concat_words(colors_parts(cs@)),
        forall|cs0: Seq<Albedo>| cs0.len() <= u64::MAX && words_at(words@, pos as int, #[trigger] (seq![cs0.len() as u64] + concat_words(colors_parts(cs0)))) ==> r is Some,
{
    let len = words.len();
    if pos >= len {
        return None;
    }
    let n = words[pos];
    let mut cs: Vec<Albedo> = Vec::new();
    let mut p = pos + 1;
    let mut i: u64 = 0;
    assert(colors_parts(cs@) =~= Seq::<Seq<u64>>::empty());
    assert(words@.subrange(pos + 1, pos + 1) =~= concat_words(Seq::<Seq<u64>>::empty()));
    proof {
        assert forall|cs0: Seq<Albedo>| #![trigger colors_parts(cs0)] cs0.len() <= u64::MAX && words_at(words@, pos as int, seq![cs0.len() as u64] + concat_words(colors_parts(cs0)))
            implies cs0.len() == n && cs0.subrange(0, 0) == cs@ by {
            let w = seq![cs0.len() as u64] + concat_words(colors_parts(cs0));
            assert(words@.subrange(pos as int, pos + w.len())[0] == words@[pos as int]);
            assert(cs0.subrange(0, 0) =~= cs@);
        }
    }
    while i < n
        invariant
            len == words@.len(),
            pos < len,
            words@[pos as int] == n,
            i <= n,
            cs@.len() == i,
            p == pos + 1 + 4 * i,
            p <= len,
            words@.subrange(pos + 1, p as int) == concat_words(colors_parts(cs@)),
            forall|cs0: Seq<Albedo>| #![trigger colors_parts(cs0)] cs0.len() <= u64::MAX && words_at(words@, pos as int, seq![cs0.len() as u64] + concat_words(colors_parts(cs0)))
                ==> cs0.len() == n && cs0.subrange(0, i as int) == cs@,
        decreases n - i,
    {
        proof {
            assert forall|cs0: Seq<Albedo>| #![trigger colors_parts(cs0)] cs0.len() <= u64::MAX && words_at(words@, pos as int, seq![cs0.len() as u64] + concat_words(colors_parts(cs0)))
                implies pos + 1 + 4 * i + 4 <= len && words@.subrange(p as int, p + 4) == color_words(cs0[i as int]) by {
                let parts = colors_parts(cs0);
                let w = seq![cs0.len() as u64] + concat_words(parts);
                lemma_concat_words_at(parts, i as int);
                assert(parts.subrange(0, i as int) =~= colors_parts(cs@));
                let a = concat_words(parts.subrange(0, i as int));
                assert(a == words@.subrange(pos + 1, p as int));
                assert(a.len() == 4 * i);
                let whole = words@.subrange(pos as int, pos + w.len());
                assert(whole == w);
                assert(words@.subrange(p as int, p + 4) =~= whole.subrange(1 + 4 * i, 1 + 4 * i + 4));
                assert(whole.subrange(1 + 4 * i, 1 + 4 * i + 4) =~= concat_words(parts).subrange(4 * i, 4 * i + 4));
            }
        }
        if len - p < 4 {
            return None;
        }
        let r = words[p];
        let g = words[p + 1];
        let b = words[p + 2];
        let a = words[p + 3];
        let ghost sub = words@.subrange(p as int, p + 4);
        assert(sub[0] == r && sub[1] == g && sub[2] == b && sub[3] == a);
        if r > 255 || g > 255 || b > 255 || a > 255 {
            return None;
        }
        let c = Albedo { r: r as u8, g: g as u8, b: b as u8, a: a as u8 };
        let ghost before = cs@;
        cs.push(c);
        proof {
            assert(sub =~= color_words(c));
            let ps = colors_parts(cs@);
            assert(ps.subrange(0, i as int) =~= colors_parts(before));
            lemma_concat_words_push(ps, i as int);
            assert(ps.subrange(0, i + 1) =~= ps);
            assert(words@.subrange(pos + 1, p + 4) =~= words@.subrange(pos + 1, p as int) + sub);
            assert forall|cs0: Seq<Albedo>| #![trigger colors_parts(cs0)] cs0.len() <= u64::MAX && words_at(words@, pos as int, seq![cs0.len() as u64] + concat_words(colors_parts(cs0)))
                implies cs0.subrange(0, i + 1) == cs@ by {
                assert(cs0.subrange(0, i as int) == before);
                assert(color_words(cs0[i as int]) == color_words(c));
                assert(cs0[i as int] == c);
                assert(cs0.subrange(0, i + 1) =~= cs@);
            }
        }
        p = p + 4;
        i += 1;
    }
    proof {
        assert(words@.subrange(pos as int, p as int) =~= seq![n] + words@.subrange(pos + 1, p as int));
    }
    Some((cs, p))
}

/// Reads a data palette at `pos`: its length, then each value
fn parse_datas(words: &Vec<u64>, pos: usize) -> (r: Option<(Vec<u32>, usize)>)
    requires
        pos <= words@.len(),
    ensures
        r matches Some((ds, end)) ==> pos <= end <= words@.len()
            && words@.subrange(pos as int, end as int) == seq![ds@.len() as u64] + datas_words(ds@),
        forall|ds0: Seq<u32>| ds0.len() <= u64::MAX && words_at(words@, pos as int, #[trigger] (seq![ds0.len() as u64] + datas_words(ds0))) ==> r is Some,
{
    let len = words.len();
    if pos >= len {
        return None;
    }
    let n = words[pos];
    if n > (len - pos - 1) as u64 {
        proof {
            assert forall|ds0: Seq<u32>| ds0.len() <= u64::MAX && words_at(words@, pos as int, #[trigger] (seq![ds0.len() as u64] + datas_words(ds0))) implies false by {
                let w = seq![ds0.len() as u64] + datas_words(ds0);
                assert(words@.subrange(pos as int, pos + w.len())[0] == words@[pos as int]);
            }
        }
        return None;
    }
    let mut ds: Vec<u32> = Vec::new();
    let mut i: usize = 0;
    let m = n as usize;
    while i < m
        invariant
            len == words@.len(),
            pos < len,
            words@[pos as int] == n,
            m == n,
            pos + 1 + m <= len,
            i <= m,
            ds@.len() == i,
            datas_words(ds@) == words@.subrange(pos + 1, pos + 1 + i),
        decreases m - i,
    {
        let w = words[pos + 1 + i];
        if w > u32::MAX as u64 {
            proof {
                assert forall|ds0: Seq<u32>| ds0.len() <= u64::MAX && words_at(words@, pos as int, #[trigger] (seq![ds0.len() as u64] + datas_words(ds0))) implies false by {
                    let wd = seq![ds0.len() as u64] + datas_words(ds0);
                    let sub = words@.subrange(pos as int, pos + wd.len());
                    assert(sub[0] == words@[pos as int]);
                    assert(sub[1 + i] == words@[pos + 1 + i]);
                    assert(wd[1 + i] == ds0[i as int] as u64);
                }
            }
            return None;
        }
        ds.push(w as u32);
        assert(datas_words(ds@) =~= words@.subrange(pos + 1, pos + 1 + i + 1));
        i += 1;
    }
    proof {
        assert(words@.subrange(pos as int, pos + 1 + m) =~= seq![n] + words@.subrange(pos + 1, pos + 1 + m));
    }
    Some((ds, pos + 1 + m))
}

/// The words of nodes given by their parts
pub open spec fn nodes_parts(cs: Seq<NodeContent>, chs: Seq<NodeChildren>, ms: Seq<BrickData>, bs: Seq<Cube>) -> Seq<Seq<u64>> {
    Seq::new(cs.len(), |k: int| node_words_of(cs[k], chs[k], ms[k], bs[k]))
}

/// The words of nodes given as tuples of their parts
pub open spec fn node_tuples_parts(ns: Seq<(NodeContent, NodeChildren, BrickData, Cube)>) -> Seq<Seq<u64>> {
    Seq::new(ns.len(), |k: int| node_words_of(ns[k].0, ns[k].1, ns[k].2, ns[k].3))
}

/// Reads `n` nodes one after the other at `pos`
#[verifier::spinoff_prover]
fn parse_nodes(
    words: &Vec<u64>,
    pos: usize,
    n: usize,
    dim: u32,
    nc: usize,
    nd: usize,
    Ghost(ns0): Ghost<Option<Seq<(NodeContent, NodeChildren, BrickData, Cube)>>>,
) -> (r: Option<(Vec<NodeContent>, Vec<NodeChildren>, Vec<BrickData>, Vec<Cube>, usize)>)
    requires
        1 <= dim,
        pos <= words@.len(),
        ns0 matches Some(ns) ==> ns.len() == n && (forall|k: int| 0 <= k < n ==> {
            &&& content_valid(#[trigger] ns[k].0, dim as nat, nc as nat, nd as nat)
            &&& children_valid(ns[k].1)
            &&& brick_valid(ns[k].2, dim as nat, nc as nat, nd as nat)
        }) && words_at(words@, pos as int, concat_words(node_tuples_parts(ns))),
    ensures
        r matches Some((cs, chs, ms, bs, end)) ==> pos <= end <= words@.len() && cs@.len() == n && chs@.len() == n
            && ms@.len() == n && bs@.len() == n,
        r matches Some((cs, chs, ms, bs, end)) ==> words@.subrange(pos as int, end as int) == concat_words(nodes_parts(cs@, chs@, ms@, bs@)),
        r matches Some((cs, chs, ms, bs, end)) ==> forall|j: int| 0 <= j < n ==> content_valid(#[trigger] cs@[j], dim as nat, nc as nat, nd as nat),
        r matches Some((cs, chs, ms, bs, end)) ==> forall|j: int| 0 <= j < n ==> children_valid(#[trigger] chs@[j]),
        r matches Some((cs, chs, ms, bs, end)) ==> forall|j: int| 0 <= j < n ==> brick_valid(#[trigger] ms@[j], dim as nat, nc as nat, nd as nat),
        ns0 matches Some(ns) ==> r is Some,
        ns0 matches Some(ns) ==> (r matches Some((cs, chs, ms, bs, end)) && end == pos + concat_words(node_tuples_parts(ns)).len()),
        ns0 matches Some(ns) ==> (r matches Some((cs, chs, ms, bs, end)) && forall|j: int| 0 <= j < n ==> {
            &&& content_words(#[trigger] cs@[j]) == content_words(ns[j].0)
            &&& children_words(chs@[j]) == children_words(ns[j].1)
            &&& brick_words(ms@[j]) == brick_words(ns[j].2)
            &&& bs@[j] == ns[j].3
        }),
{
    let mut cs: Vec<NodeContent> = Vec::new();
    let mut chs: Vec<NodeChildren> = Vec::new();
    let mut ms: Vec<BrickData> = Vec::new();
    let mut bs: Vec<Cube> = Vec::new();
    let mut p = pos;
    let mut k: usize = 0;
    let ghost parts0 = match ns0 { Some(ns) => node_tuples_parts(ns), None => Seq::empty() };
    assert(nodes_parts(cs@, chs@, ms@, bs@) =~= Seq::<Seq<u64>>::empty());
    assert(words@.subrange(pos as int, pos as int) =~= Seq::<u64>::empty());
    proof {
        if ns0 is Some {
            assert(parts0.subrange(0, 0) =~= Seq::<Seq<u64>>::empty());
            assert(concat_words(parts0.subrange(0, 0)).len() == 0);
        }
    }
    while k < n
        invariant
            1 <= dim,
            k <= n,
            pos <= p <= words@.len(),
            cs@.len() == k && chs@.len() == k && ms@.len() == k && bs@.len() == k,
            words@.subrange(pos as int, p as int) == concat_words(nodes_parts(cs@, chs@, ms@, bs@)),
            forall|j: int| 0 <= j < k ==> content_valid(#[trigger] cs@[j], dim as nat, nc as nat, nd as nat),
            forall|j: int| 0 <= j < k ==> children_valid(#[trigger] chs@[j]),
            forall|j: int| 0 <= j < k ==> brick_valid(#[trigger] ms@[j], dim as nat, nc as nat, nd as nat),
            ns0 matches Some(ns) ==> ns.len() == n && (forall|j: int| 0 <= j < n ==> {
                &&& content_valid(#[trigger] ns[j].0, dim as nat, nc as nat, nd as nat)
                &&& children_valid(ns[j].1)
                &&& brick_valid(ns[j].2, dim as nat, nc as nat, nd as nat)
            }) && parts0 == node_tuples_parts(ns) && words_at(words@, pos as int, concat_words(parts0))
                && p == pos + concat_words(parts0.subrange(0, k as int)).len()
                && forall|j: int| 0 <= j < k ==> {
                    &&& content_words(#[trigger] cs@[j]) == content_words(ns[j].0)
                    &&& children_words(chs@[j]) == children_words(ns[j].1)
                    &&& brick_words(ms@[j]) == brick_words(ns[j].2)
                    &&& bs@[j] == ns[j].3
                },
        decreases n - k,
    {
        let ghost n0 = match ns0 { Some(ns) => Some(ns[k as int]), None => None };
        proof {
            if let Some(ns) = ns0 {
                let t = ns[k as int];
                lemma_concat_words_at(parts0, k as int);
                let a = concat_words(parts0.subrange(0, k as int));
                let whole = concat_words(parts0);
                assert(parts0[k as int] == node_words_of(t.0, t.1, t.2, t.3));
                assert(words@.subrange(pos as int, pos + whole.len()) == whole);
                assert(words@.subrange(p as int, p + parts0[k as int].len()) =~= whole.subrange(a.len() as int, (a.len() + parts0[k as int].len()) as int));
            }
        }
        let (node, end) = match parse_node(words, p, dim, nc, nd, Ghost(n0)) {
            Some(x) => x,
            None => { return None; },
        };
        let ghost before = nodes_parts(cs@, chs@, ms@, bs@);
        proof {
            assert(words@.subrange(pos as int, end as int) =~= words@.subrange(pos as int, p as int) + words@.subrange(p as int, end as int));
        }
        let (c, ch, m, b) = node;
        cs.push(c);
        chs.push(ch);
        ms.push(m);
        bs.push(b);
        proof {
            let ps = nodes_parts(cs@, chs@, ms@, bs@);
            assert(ps.subrange(0, k as int) =~= before);
            assert(ps[k as int] == node_words_of(c, ch, m, b));
            lemma_concat_words_push(ps, k as int);
            assert(ps.subrange(0, k + 1) =~= ps);
            if let Some(ns) = ns0 {
                lemma_concat_words_push(parts0, k as int);
            }
        }
        p = end;
        k += 1;
    }
    proof {
        if let Some(ns) = ns0 {
            assert(parts0.subrange(0, n as int) =~= parts0);
        }
        assert(k == n);
        assert(words@.subrange(pos as int, p as int) == concat_words(nodes_parts(cs@, chs@, ms@, bs@)));
        assert(pos <= p <= words@.len());
    }
    let res = (cs, chs, ms, bs, p);
    assert(res.0@.len() == n && res.1@.len() == n && res.2@.len() == n && res.3@.len() == n);
    Some(res)
}

/// `4^a < 4^b` for `a < b`
proof fn lemma_pow4_strict(a: nat, b: nat)
    requires
        a < b,
    ensures
        pow4(a) < pow4(b),
    decreases b,
{
    lemma_pow4_is_power(a);
    lemma_pow4_is_power((b - 1) as nat);
    if a < b - 1 {
        lemma_pow4_strict(a, (b - 1) as nat);
    }
}

/// Powers of four are told apart by their exponent
proof fn lemma_pow4_injective(a: nat, b: nat)
    requires
        pow4(a) == pow4(b),
    ensures
        a == b,
{
    if a < b {
        lemma_pow4_strict(a, b);
    } else if b < a {
        lemma_pow4_strict(b, a);
    }
}

/// `4^j` is a power of four
proof fn lemma_pow4_is_power_of(j: nat)
    ensures
        is_power_of(pow4(j), 4),
    decreases j,
{
    lemma_pow4_is_power(j);
    if j > 0 {
        lemma_pow4_is_power_of((j - 1) as nat);
        lemma_pow4_is_power((j - 1) as nat);
        assert(pow4(j) == 4 * pow4((j - 1) as nat));
        vstd::arithmetic::div_mod::lemma_div_multiples_vanish(pow4((j - 1) as nat) as int, 4);
        vstd::arithmetic::div_mod::lemma_mod_multiples_basic(pow4((j - 1) as nat) as int, 4);
        assert(pow4((j - 1) as nat) * 4 == 4 * pow4((j - 1) as nat)) by (nonlinear_arith);
    }
}

/// Equal words tell the same connection to children
proof fn lemma_children_words_eq(c1: NodeChildren, c2: NodeChildren)
    requires
        children_words(c1) == children_words(c2),
    ensures
        match (c1, c2) {
            (NodeChildren::NoChildren, NodeChildren::NoChildren) => true,
            (NodeChildren::Children(k1), NodeChildren::Children(k2)) => k1@ == k2@,
            (NodeChildren::OccupancyBitmap(o1), NodeChildren::OccupancyBitmap(o2)) => o1 == o2,
            _ => false,
        },
{
    let w1 = children_words(c1);
    let w2 = children_words(c2);
    assert(w1[0] == w2[0]);
    assert(w1.len() == w2.len());
    match c1 {
        NodeChildren::NoChildren => { assert(w1[0] == 0); },
        NodeChildren::Children(k1) => { assert(w1[0] == 1); assert(w1.len() == 1 + k1@.len()); },
        NodeChildren::OccupancyBitmap(_) => { assert(w1[0] == 2); },
    }
    match c2 {
        NodeChildren::NoChildren => { assert(w2[0] == 0); },
        NodeChildren::Children(k2) => { assert(w2[0] == 1); assert(w2.len() == 1 + k2@.len()); },
        NodeChildren::OccupancyBitmap(_) => { assert(w2[0] == 2); },
    }
    match (c1, c2) {
        (NodeChildren::Children(k1), NodeChildren::Children(k2)) => {
            assert forall|i: int| 0 <= i < k1@.len() implies k1@[i] == k2@[i] by {
                assert(w1[1 + i] == w2[1 + i]);
                assert(w1[1 + i] == k1@[i] as u64);
                assert(w2[1 + i] == k2@[i] as u64);
            }
            assert(k1@ =~= k2@);
        },
        (NodeChildren::OccupancyBitmap(o1), NodeChildren::OccupancyBitmap(o2)) => {
            assert(w1[1] == w2[1]);
        },
        _ => {},
    }
}

/// The level of a node of the given size, for the given brick dimension
pub open spec fn size_level(size: u32, dim: u32) -> nat {
    choose|j: nat| j >= 1 && size == dim * pow4(j)
}

/// The candidate tree has the same node sizes, kinds and connections as the other tree
pub(crate) open spec fn same_shape(t: &BoxTree<u32>, t0: &BoxTree<u32>) -> bool {
    &&& t.nodes@.len() == t0.nodes@.len()
    &&& t.brick_dim == t0.brick_dim
    &&& t.boxtree_size == t0.boxtree_size
    &&& forall|k: int| 0 <= k < t.nodes@.len() ==> {
        &&& content_words(#[trigger] t.nodes@[k]) == content_words(t0.nodes@[k])
        &&& children_words(t.node_children@[k]) == children_words(t0.node_children@[k])
        &&& t.node_bounds@[k] == t0.node_bounds@[k]
    }
}

/// True if the two cubes are the same
fn same_cube(a: &Cube, b: &Cube) -> (r: bool)
    ensures
        r == (*a == *b),
{
    a.min_position.x == b.min_position.x && a.min_position.y == b.min_position.y && a.min_position.z == b.min_position.z
        && a.size == b.size
}

/// Equal words tell the same kind of node content
proof fn lemma_content_kind_eq(c1: NodeContent, c2: NodeContent)
    requires
        content_words(c1) == content_words(c2),
    ensures
        (c1 is Nothing) == (c2 is Nothing),
        (c1 is Internal) == (c2 is Internal),
        (c1 is Leaf) == (c2 is Leaf),
        (c1 is UniformLeaf) == (c2 is UniformLeaf),
{
    let w1 = content_words(c1);
    let w2 = content_words(c2);
    assert(w1[0] == w2[0]);
    match c1 {
        NodeContent::Nothing => { assert(w1[0] == 0); },
        NodeContent::Internal(_) => { assert(w1[0] == 1); },
        NodeContent::Leaf(_) => { assert(w1[0] == 2); },
        NodeContent::UniformLeaf(_) => { assert(w1[0] == 3); },
    }
    match c2 {
        NodeContent::Nothing => { assert(w2[0] == 0); },
        NodeContent::Internal(_) => { assert(w2[0] == 1); },
        NodeContent::Leaf(_) => { assert(w2[0] == 2); },
        NodeContent::UniformLeaf(_) => { assert(w2[0] == 3); },
    }
}

impl BoxTree<u32> {
    /// Checks what the invariant asks of one node, given that its content, its children and
    /// its MIP map were checked against the palettes already
    fn check_node(&self, k: usize, Ghost(t0): Ghost<Option<BoxTree<u32>>>) -> (r: bool)
        requires
            k < self.nodes@.len(),
            self.nodes@.len() == self.node_children@.len(),
            self.nodes@.len() == self.node_mips@.len(),
            self.nodes@.len() == self.node_bounds@.len(),
            self.nodes@.len() == self.node_levels@.len(),
            self.brick_dim >= 1,
            content_valid(self.nodes@[k as int], self.brick_dim as nat, self.voxel_color_palette@.len(), self.voxel_data_palette@.len()),
            children_valid(self.node_children@[k as int]),
            brick_valid(self.node_mips@[k as int], self.brick_dim as nat, self.voxel_color_palette@.len(), self.voxel_data_palette@.len()),
            forall|j: int| 0 <= j < self.nodes@.len() ==> #[trigger] self.node_levels@[j] == size_level(self.node_bounds@[j].size, self.brick_dim),
            t0 matches Some(t) ==> t.wf() && same_shape(self, &t),
        ensures
            r ==> self.node_wf(k as int),
            t0 is Some ==> r,
    {
        let dim = self.brick_dim;
        let n = self.nodes.len();
        let b = self.node_bounds[k];
        proof {
            if let Some(t) = t0 {
                assert(t.node_wf(k as int));
                assert(t.node_bounds@[k as int] == b);
                lemma_content_kind_eq(self.nodes@[k as int], t.nodes@[k as int]);
                lemma_children_words_eq(self.node_children@[k as int], t.node_children@[k as int]);
            }
        }
        if b.min_position.x as u64 + b.size as u64 > 0x1_0000_0000u64 || b.min_position.y as u64 + b.size as u64 > 0x1_0000_0000u64
            || b.min_position.z as u64 + b.size as u64 > 0x1_0000_0000u64 {
            return false;
        }
        if b.size % dim != 0 {
            proof {
                if let Some(t) = t0 {
                    let j0 = t.node_levels@[k as int];
                    vstd::arithmetic::div_mod::lemma_mod_multiples_basic(pow4(j0) as int, dim as int);
                    assert(pow4(j0) * dim == dim * pow4(j0)) by (nonlinear_arith);
                }
            }
            return false;
        }
        let q = b.size / dim;
        proof {
            vstd::arithmetic::div_mod::lemma_fundamental_div_mod(b.size as int, dim as int);
            if let Some(t) = t0 {
                let j0 = t.node_levels@[k as int];
                vstd::arithmetic::div_mod::lemma_div_multiples_vanish(pow4(j0) as int, dim as int);
                assert(pow4(j0) * dim == dim * pow4(j0)) by (nonlinear_arith);
                assert(q == pow4(j0));
                lemma_pow4_is_power_of(j0);
                lemma_pow4_is_power(j0);
            }
        }
        let j = match exact_log(q, 4) {
            Some(j) => j,
            None => { return false; },
        };
        if j == 0 {
            proof {
                if let Some(t) = t0 {
                    let j0 = t.node_levels@[k as int];
                    lemma_pow4_is_power(j0);
                    lemma_pow4_is_power(0);
                    lemma_pow4_strict(0, j0);
                }
            }
            return false;
        }
        proof {
            lemma_pow4_is_power(j as nat);
            assert(b.size == dim * q) by {
                assert(q * dim == dim * q) by (nonlinear_arith);
            }
            assert(b.size == dim * pow4(j as nat));
            let jl = size_level(b.size, dim);
            assert(jl >= 1 && b.size == dim * pow4(jl));
            assert(self.node_levels@[k as int] == jl);
            lemma_level_size(dim as nat, jl);
            assert(pow4(j as nat) == pow4(jl)) by (nonlinear_arith)
                requires dim * pow4(j as nat) == dim * pow4(jl), dim >= 1;
            lemma_pow4_injective(j as nat, jl);
            if let Some(t) = t0 {
                let j0 = t.node_levels@[k as int];
                assert(pow4(j0) == pow4(jl)) by (nonlinear_arith)
                    requires dim * pow4(j0) == dim * pow4(jl), dim >= 1;
                lemma_pow4_injective(j0, jl);
            }
        }
        let ghost jl = self.node_levels@[k as int];
        let is_leaf = match &self.nodes[k] {
            NodeContent::Leaf(_) | NodeContent::UniformLeaf(_) => true,
            _ => false,
        };
        if is_leaf {
            if b.size as u64 != 4 * (dim as u64) {
                proof {
                    if let Some(t) = t0 {
                        reveal_with_fuel(pow4, 2);
                    }
                }
                return false;
            }
            proof {
                reveal_with_fuel(pow4, 2);
                assert(pow4(1) == 4);
                assert(b.size == dim * 4);
                assert(dim * pow4(jl) == dim * pow4(1));
                assert(pow4(jl) == pow4(1)) by (nonlinear_arith)
                    requires dim * pow4(jl) == dim * pow4(1), dim >= 1;
                lemma_pow4_injective(jl, 1);
            }
        }
        match &self.node_children[k] {
            NodeChildren::Children(v) => {
                let mut s: u8 = 0;
                while s < 64
                    invariant
                        n == self.nodes@.len(),
                        k < n,
                        self.nodes@.len() == self.node_bounds@.len(),
                        self.nodes@.len() == self.node_levels@.len(),
                        b == self.node_bounds@[k as int],
                        cube_fits(b),
                        cube_splittable(b),
                        dim == self.brick_dim,
                        dim >= 1,
                        jl == self.node_levels@[k as int],
                        jl >= 1,
                        b.size == dim * pow4(jl),
                        self.node_children@[k as int] == NodeChildren::Children(*v),
                        v@.len() == 64,
                        s <= 64,
                        forall|j: int| 0 <= j < self.nodes@.len() ==> #[trigger] self.node_levels@[j] == size_level(self.node_bounds@[j].size, self.brick_dim),
                        forall|i: int| 0 <= i < s ==> #[trigger] v@[i] == EMPTY_MARKER || (0 < v@[i] < n
                            && self.node_bounds@[v@[i] as int] == child_cube(b, i)
                            && self.node_levels@[v@[i] as int] + 1 == jl),
                        j == jl,
                        t0 matches Some(t) ==> (t.wf() && same_shape(self, &t) && t.node_wf(k as int)
                            && t.node_levels@[k as int] == jl
                            && (t.node_children@[k as int] matches NodeChildren::Children(v0) && v0@ == v@)),
                    decreases 64 - s,
                {
                    let key = v[s as usize];
                    if key != EMPTY_MARKER {
                        if key == 0 || key as usize >= n || j == 1 {
                            proof {
                                if let Some(t) = t0 {
                                    assert(v@[s as int] == key);
                                    match t.node_children@[k as int] {
                                        NodeChildren::Children(v0) => {
                                            assert(v0@[s as int] == key);
                                            if 0 < key < t.nodes@.len() {
                                                assert(t.node_wf(key as int));
                                            }
                                        },
                                        _ => {},
                                    }
                                }
                            }
                            return false;
                        }
                        let cb = b.child_bounds_for(s);
                        if !same_cube(&self.node_bounds[key as usize], &cb) {
                            proof {
                                if let Some(t) = t0 {
                                    match t.node_children@[k as int] {
                                        NodeChildren::Children(v0) => {
                                            assert(v0@[s as int] == key);
                                            assert(content_words(self.nodes@[key as int]) == content_words(t.nodes@[key as int]));
                                            assert(self.node_bounds@[key as int] == t.node_bounds@[key as int]);
                                            assert(content_words(self.nodes@[k as int]) == content_words(t.nodes@[k as int]));
                                            assert(t.node_bounds@[k as int] == b);
                                            assert(t.node_wf(k as int));
                                            assert(v0@[s as int] == EMPTY_MARKER || (0 < v0@[s as int] < t.nodes@.len()
                                                && t.node_bounds@[v0@[s as int] as int] == child_cube(t.node_bounds@[k as int], s as int)));
                                            assert(t.node_bounds@[key as int] == child_cube(b, s as int));
                                        },
                                        _ => {},
                                    }
                                }
                            }
                            return false;
                        }
                        proof {
                            let kc = key as int;
                            let bc = self.node_bounds@[kc];
                            let jc = self.node_levels@[kc];
                            assert(jc == size_level(bc.size, dim));
                            assert(bc.size * 4 == b.size);
                            lemma_pow4_is_power(jc);
                            let jc2 = jc;
                            assert(jc >= 1 && bc.size == dim * pow4(jc)) by {
                                let jm = (jl - 1) as nat;
                                assert(pow4(jl) == 4 * pow4(jm));
                                assert(bc.size * 4 == (dim * pow4(jm)) * 4) by (nonlinear_arith)
                                    requires bc.size * 4 == dim * pow4(jl), pow4(jl) == 4 * pow4(jm);
                                assert(bc.size == dim * pow4(jm));
                                assert(jm >= 1);
                                assert(exists|jj: nat| jj >= 1 && bc.size == dim * pow4(jj));
                            }
                            assert(dim * pow4(jc + 1) == dim * pow4(jl)) by {
                                assert(pow4(jc + 1) == 4 * pow4(jc));
                                assert(dim * (4 * pow4(jc)) == (dim * pow4(jc)) * 4) by (nonlinear_arith);
                            }
                            assert(pow4(jc + 1) == pow4(jl)) by (nonlinear_arith)
                                requires dim * pow4(jc + 1) == dim * pow4(jl), dim >= 1;
                            lemma_pow4_injective(jc + 1, jl);
                        }
                    }
                    s += 1;
                }
            },
            _ => {},
        }
        true
    }
}

/// Every color takes four words
pub(crate) proof fn lemma_colors_len(cs: Seq<Albedo>, k: int)
    requires
        0 <= k <= cs.len(),
    ensures
        concat_words(colors_parts(cs).subrange(0, k)).len() == 4 * k,
    decreases k,
{
    let parts = colors_parts(cs);
    if k == 0 {
        assert(parts.subrange(0, 0) =~= Seq::<Seq<u64>>::empty());
    } else {
        lemma_colors_len(cs, k - 1);
        lemma_concat_words_push(parts, k - 1);
    }
}

impl BoxTree<u32> {
    /// Checks what the invariant asks of the whole tree, given that the content, the children
    /// and the MIP map of every node were checked against the palettes already
    fn check_structure(&self, Ghost(t0): Ghost<Option<BoxTree<u32>>>) -> (r: bool)
        requires
            self.nodes@.len() == self.node_children@.len(),
            self.nodes@.len() == self.node_mips@.len(),
            self.nodes@.len() == self.node_bounds@.len(),
            self.nodes@.len() == self.node_levels@.len(),
            1 <= self.nodes@.len() < EMPTY_MARKER,
            self.brick_dim >= 1,
            self.voxel_color_palette@.len() < EMPTY_INDEX,
            self.voxel_data_palette@.len() < EMPTY_INDEX,
            crate::boxtree::palette_indexed(self.voxel_color_palette@, self.map_to_color_index_in_palette@),
            forall|k: int| 0 <= k < self.nodes@.len() ==> content_valid(#[trigger] self.nodes@[k], self.brick_dim as nat, self.voxel_color_palette@.len(), self.voxel_data_palette@.len()),
            forall|k: int| 0 <= k < self.nodes@.len() ==> children_valid(#[trigger] self.node_children@[k]),
            forall|k: int| 0 <= k < self.nodes@.len() ==> brick_valid(#[trigger] self.node_mips@[k], self.brick_dim as nat, self.voxel_color_palette@.len(), self.voxel_data_palette@.len()),
            forall|j: int| 0 <= j < self.nodes@.len() ==> #[trigger] self.node_levels@[j] == size_level(self.node_bounds@[j].size, self.brick_dim),
            t0 matches Some(t) ==> t.wf() && same_shape(self, &t),
        ensures
            r ==> self.wf(),
            t0 is Some ==> r,
    {
        let root = self.node_bounds[0];
        if !(root.min_position.x == 0 && root.min_position.y == 0 && root.min_position.z == 0 && root.size == self.boxtree_size) {
            proof {
                if let Some(t) = t0 {
                    assert(content_words(self.nodes@[0]) == content_words(t.nodes@[0]));
                    assert(t.node_bounds@[0] == t.root_cube());
                }
            }
            return false;
        }
        let n = self.nodes.len();
        let mut k: usize = 0;
        while k < n
            invariant
                n == self.nodes@.len(),
                k <= n,
                self.nodes@.len() == self.node_children@.len(),
                self.nodes@.len() == self.node_mips@.len(),
                self.nodes@.len() == self.node_bounds@.len(),
                self.nodes@.len() == self.node_levels@.len(),
                self.brick_dim >= 1,
                forall|k: int| 0 <= k < self.nodes@.len() ==> content_valid(#[trigger] self.nodes@[k], self.brick_dim as nat, self.voxel_color_palette@.len(), self.voxel_data_palette@.len()),
                forall|k: int| 0 <= k < self.nodes@.len() ==> children_valid(#[trigger] self.node_children@[k]),
                forall|k: int| 0 <= k < self.nodes@.len() ==> brick_valid(#[trigger] self.node_mips@[k], self.brick_dim as nat, self.voxel_color_palette@.len(), self.voxel_data_palette@.len()),
                forall|j: int| 0 <= j < self.nodes@.len() ==> #[trigger] self.node_levels@[j] == size_level(self.node_bounds@[j].size, self.brick_dim),
                t0 matches Some(t) ==> t.wf() && same_shape(self, &t),
                forall|j: int| 0 <= j < k ==> self.node_wf(j),
            decreases n - k,
        {
            if !self.check_node(k, Ghost(t0)) {
                return false;
            }
            k += 1;
        }
        proof {
            assert(self.node_bounds@[0] == self.root_cube());
        }
        true
    }
}

impl BoxTree<u32> {
    /// Where the words of a valid tree lie among its words
    pub(crate) proof fn lemma_layout(&self)
        requires
            self.wf(),
        ensures
            ({
                let w = self.tree_words();
                let nc = self.voxel_color_palette@.len();
                let nd = self.voxel_data_palette@.len();
                let p1 = 135int;
                let p2 = p1 + 1 + 4 * nc;
                let p3: int = p2 + 1 + nd;
                &&& w.len() >= p3 + 1
                &&& w[0] == 0 && w[1] == 1 && w[2] == 0
                &&& w[3] == self.boxtree_size as u64 && w[4] == self.brick_dim as u64
                &&& w[5] == (if self.auto_simplify { 1u64 } else { 0u64 })
                &&& words_at(w, 6, strategy_words(self.mip_map_strategy))
                &&& words_at(w, p1, seq![nc as u64] + concat_words(colors_parts(self.voxel_color_palette@)))
                &&& words_at(w, p2, seq![nd as u64] + datas_words(self.voxel_data_palette@))
                &&& w[p3] == self.nodes@.len() as u64
                &&& w.subrange(p3 + 1, w.len() as int) == concat_words(Seq::new(self.nodes@.len(), |k: int| self.node_words(k)))
            }),
    {
        let t0 = *self;
        let w = self.tree_words();
        let hs = seq![0u64, 1u64, 0u64, t0.boxtree_size as u64, t0.brick_dim as u64, if t0.auto_simplify { 1u64 } else { 0u64 }];
        let sw = strategy_words(t0.mip_map_strategy);
        let cn = seq![t0.voxel_color_palette@.len() as u64];
        let cw = concat_words(colors_parts(t0.voxel_color_palette@));
        let dn = seq![t0.voxel_data_palette@.len() as u64];
        let dw = datas_words(t0.voxel_data_palette@);
        let nn = seq![t0.nodes@.len() as u64];
        let nw = concat_words(Seq::new(t0.nodes@.len(), |k: int| t0.node_words(k)));
        assert(w == hs + sw + cn + cw + dn + dw + nn + nw);
        lemma_strategy_parts_len(t0.mip_map_strategy, STORED_MIP_LEVELS as int);
        assert(strategy_parts(t0.mip_map_strategy).subrange(0, STORED_MIP_LEVELS as int) =~= strategy_parts(t0.mip_map_strategy));
        assert(sw.len() == 129);
        lemma_colors_len(t0.voxel_color_palette@, t0.voxel_color_palette@.len() as int);
        assert(colors_parts(t0.voxel_color_palette@).subrange(0, t0.voxel_color_palette@.len() as int) =~= colors_parts(t0.voxel_color_palette@));
        assert(cw.len() == 4 * t0.voxel_color_palette@.len());
        let nc = t0.voxel_color_palette@.len();
        let nd = t0.voxel_data_palette@.len();
        let p2: int = (136 + 4 * nc) as int;
        let p3: int = p2 + 1 + nd;
        assert(w.subrange(6, 135) =~= sw);
        assert(w.subrange(135, p2) =~= cn + cw);
        assert(w.subrange(p2, p3) =~= dn + dw);
        assert(w.subrange(p3 + 1, w.len() as int) =~= nw);
        assert(w[p3] == nn[0]);
    }
}

/// The words before the nodes of a tree: the version, the size, the brick dimension, whether
/// the tree simplifies, the MIP map strategy and the two palettes
pub open spec fn head_words(size: u32, dim: u32, auto: bool, s: MIPMapStrategy, cs: Seq<Albedo>, ds: Seq<u32>) -> Seq<u64> {
    seq![0u64, 1u64, 0u64, size as u64, dim as u64, if auto { 1u64 } else { 0u64 }]
        + strategy_words(s)
        + seq![cs.len() as u64]
        + concat_words(colors_parts(cs))
        + seq![ds.len() as u64]
        + datas_words(ds)
}

/// Reads the words before the nodes of a tree, and returns them with the position of the
/// node count
#[verifier::spinoff_prover]
fn parse_head(words: &Vec<u64>, Ghost(t0opt): Ghost<Option<BoxTree<u32>>>) -> (r: Option<(u32, u32, bool, MIPMapStrategy, Vec<Albedo>, Vec<u32>, usize)>)
    requires
        t0opt matches Some(t) ==> t.wf() && t.tree_words() == words@,
    ensures
        r matches Some((size, dim, auto, s, cs, ds, p3)) ==> {
            &&& 1 <= dim
            &&& cs@.len() < EMPTY_INDEX && ds@.len() < EMPTY_INDEX
            &&& p3 < words@.len()
            &&& p3 == 137 + 4 * cs@.len() + ds@.len()
            &&& words@.subrange(0, p3 as int) == head_words(size, dim, auto, s, cs@, ds@)
        },
        t0opt matches Some(t) ==> (r matches Some((size, dim, auto, s, cs, ds, p3))
            && size == t.boxtree_size && dim == t.brick_dim && cs@.len() == t.voxel_color_palette@.len() && ds@.len() == t.voxel_data_palette@.len()),
{
    let ghost t0 = t0opt->0;
    proof {
        if t0opt is Some {
            t0.lemma_layout();
        }
    }
    let len = words.len();
    if len < 6 {
        return None;
    }
    if words[0] > u32::MAX as u64 || words[1] > u32::MAX as u64 || words[2] > u32::MAX as u64 {
        return None;
    }
    let stored = Version::new(words[0] as u32, words[1] as u32, words[2] as u32);
    if !version().compatible(&stored) {
        return None;
    }
    let size = words[3];
    let dim = words[4];
    let auto = words[5];
    if size > u32::MAX as u64 || dim == 0 || dim > u32::MAX as u64 || auto > 1 {
        return None;
    }
    let dim = dim as u32;
    let (strategy, p1) = match parse_strategy(words, 6) {
        Some(x) => x,
        None => { return None; },
    };
    proof {
        lemma_strategy_parts_len(strategy, STORED_MIP_LEVELS as int);
        assert(strategy_parts(strategy).subrange(0, STORED_MIP_LEVELS as int) =~= strategy_parts(strategy));
        assert(strategy_words(strategy).len() == 129);
        assert(words@.subrange(6, p1 as int).len() == p1 - 6);
        assert(p1 == 6 + 129);
    }
    let (colors, p2) = match parse_colors(words, p1) {
        Some(x) => x,
        None => { return None; },
    };
    proof {
        lemma_colors_len(colors@, colors@.len() as int);
        assert(colors_parts(colors@).subrange(0, colors@.len() as int) =~= colors_parts(colors@));
        assert(words@.subrange(p1 as int, p2 as int).len() >= 1);
        assert(words@.subrange(p1 as int, p2 as int)[0] == words@[p1 as int]);
        assert(words@[p1 as int] == colors@.len() as u64);
        assert(p2 == p1 + 1 + 4 * colors@.len());
        if t0opt is Some {
            let cs0 = seq![t0.voxel_color_palette@.len() as u64] + concat_words(colors_parts(t0.voxel_color_palette@));
            assert(words@.subrange(p1 as int, p1 + cs0.len())[0] == words@[p1 as int]);
            assert(colors@.len() == t0.voxel_color_palette@.len());
        }
    }
    let (datas, p3) = match parse_datas(words, p2) {
        Some(x) => x,
        None => { return None; },
    };
    proof {
        assert(words@.subrange(p2 as int, p3 as int).len() >= 1);
        assert(words@.subrange(p2 as int, p3 as int)[0] == words@[p2 as int]);
        assert(p3 == p2 + 1 + datas@.len());
        if t0opt is Some {
            let ds0 = seq![t0.voxel_data_palette@.len() as u64] + datas_words(t0.voxel_data_palette@);
            assert(words@.subrange(p2 as int, p2 + ds0.len())[0] == words@[p2 as int]);
            assert(datas@.len() == t0.voxel_data_palette@.len());
        }
    }
    if colors.len() >= EMPTY_INDEX as usize || datas.len() >= EMPTY_INDEX as usize {
        return None;
    }
    if p3 >= len {
        return None;
    }
    let auto = auto == 1;
    proof {
        assert(words@.subrange(0, 6) =~= seq![0u64, 1u64, 0u64, size as u32 as u64, dim as u64, if auto { 1u64 } else { 0u64 }]);
        assert(words@.subrange(0, p3 as int) =~= words@.subrange(0, 6) + words@.subrange(6, p1 as int)
            + words@.subrange(p1 as int, p2 as int) + words@.subrange(p2 as int, p3 as int));
    }
    Some((size as u32, dim, auto, strategy, colors, datas, p3))
}

impl BoxTree<u32> {
    /// The nodes of a valid tree as tuples of their parts, and where their words lie
    pub(crate) proof fn lemma_node_tuples(&self) -> (ns: Seq<(NodeContent, NodeChildren, BrickData, Cube)>)
        requires
            self.wf(),
        ensures
            ({
                let w = self.tree_words();
                let p3: int = (137 + 4 * self.voxel_color_palette@.len() + self.voxel_data_palette@.len()) as int;
                &&& ns.len() == self.nodes@.len()
                &&& p3 < w.len()
                &&& w[p3] == self.nodes@.len() as u64
                &&& words_at(w, p3 + 1, concat_words(node_tuples_parts(ns)))
                &&& p3 + 1 + concat_words(node_tuples_parts(ns)).len() == w.len()
                &&& forall|k: int| 0 <= k < ns.len() ==> {
                    &&& content_valid(#[trigger] ns[k].0, self.brick_dim as nat, self.voxel_color_palette@.len(), self.voxel_data_palette@.len())
                    &&& children_valid(ns[k].1)
                    &&& brick_valid(ns[k].2, self.brick_dim as nat, self.voxel_color_palette@.len(), self.voxel_data_palette@.len())
                }
                &&& forall|k: int| 0 <= k < ns.len() ==> #[trigger] ns[k] == (self.nodes@[k], self.node_children@[k], self.node_mips@[k], self.node_bounds@[k])
            }),
    {
        self.lemma_layout();
        let n = self.nodes@.len();
        let ns = Seq::new(n, |k: int| (self.nodes@[k], self.node_children@[k], self.node_mips@[k], self.node_bounds@[k]));
        assert(node_tuples_parts(ns) =~= Seq::new(n, |k: int| self.node_words(k)));
        assert forall|k: int| 0 <= k < ns.len() implies {
            &&& content_valid(#[trigger] ns[k].0, self.brick_dim as nat, self.voxel_color_palette@.len(), self.voxel_data_palette@.len())
            &&& children_valid(ns[k].1)
            &&& brick_valid(ns[k].2, self.brick_dim as nat, self.voxel_color_palette@.len(), self.voxel_data_palette@.len())
        } by {
            assert(self.node_wf(k));
        }
        let w = self.tree_words();
        let p3: int = (137 + 4 * self.voxel_color_palette@.len() + self.voxel_data_palette@.len()) as int;
        assert(w.subrange(p3 + 1, w.len() as int).len() == w.len() - (p3 + 1));
        ns
    }
}

impl BoxTree<u32> {
    /// Builds the tree the words describe, checking everything the invariant of the tree
    /// asks; nothing where the words describe no valid tree
    #[verifier::spinoff_prover]
    pub(crate) fn from_words(words: &Vec<u64>) -> (r: Option<BoxTree<u32>>)
        ensures
            r matches Some(t) ==> t.wf() && t.tree_words() == words@,
            (exists|t0: BoxTree<u32>| t0.wf() && #[trigger] t0.tree_words() == words@) ==> r is Some,
    {
        let ghost t0opt: Option<BoxTree<u32>> = if exists|t0: BoxTree<u32>| t0.wf() && #[trigger] t0.tree_words() == words@ {
            Some(choose|t0: BoxTree<u32>| t0.wf() && #[trigger] t0.tree_words() == words@)
        } else {
            None
        };
        let ghost t0 = t0opt->0;
        let (size, dim, auto, strategy, colors, datas, p3) = match parse_head(words, Ghost(t0opt)) {
            Some(x) => x,
            None => { return None; },
        };
        let ghost ns0: Option<Seq<(NodeContent, NodeChildren, BrickData, Cube)>> = if t0opt is Some {
            Some(t0.lemma_node_tuples())
        } else {
            None
        };
        let n = words[p3];
        if n == 0 || n >= EMPTY_MARKER as u64 {
            return None;
        }
        let n = n as usize;
        let nc = colors.len();
        let nd = datas.len();
        let (cs, chs, ms, bs, end) = match parse_nodes(words, p3 + 1, n, dim, nc, nd, Ghost(ns0)) {
            Some(x) => x,
            None => { return None; },
        };
        if end != words.len() {
            return None;
        }
        let ghost levels = Seq::new(n as nat, |k: int| size_level(bs@[k].size, dim));
        let ghost gcs = cs@;
        let ghost gchs = chs@;
        let ghost gbs = bs@;
        proof {
            if let Some(ns) = ns0 {
                assert forall|k: int| 0 <= k < n implies {
                    &&& content_words(#[trigger] gcs[k]) == content_words(t0.nodes@[k])
                    &&& children_words(gchs[k]) == children_words(t0.node_children@[k])
                    &&& gbs[k] == t0.node_bounds@[k]
                } by {
                    assert(ns[k] == (t0.nodes@[k], t0.node_children@[k], t0.node_mips@[k], t0.node_bounds@[k]));
                    assert(content_words(cs@[k]) == content_words(ns[k].0));
                    assert(children_words(chs@[k]) == children_words(ns[k].1));
                    assert(bs@[k] == ns[k].3);
                }
            }
        }
        let t = BoxTree {
            auto_simplify: auto,
            boxtree_size: size,
            brick_dim: dim,
            nodes: cs,
            node_children: chs,
            node_mips: ms,
            map_to_color_index_in_palette: crate::boxtree::index_palette(&colors),
            voxel_color_palette: colors,
            voxel_data_palette: datas,
            mip_map_strategy: strategy,
            node_bounds: bs,
            node_levels: Ghost(levels),
        };
        proof {
            if let Some(ns) = ns0 {
                assert(t.nodes@ == gcs && t.node_children@ == gchs && t.node_bounds@ == gbs);
                assert(same_shape(&t, &t0));
            }
        }
        let ghost tg = if t0opt is Some { Some(t0) } else { None };
        if !t.check_structure(Ghost(tg)) {
            return None;
        }
        proof {
            assert(Seq::new(t.nodes@.len(), |k: int| t.node_words(k)) =~= nodes_parts(t.nodes@, t.node_children@, t.node_mips@, t.node_bounds@));
            assert(words@ =~= words@.subrange(0, p3 as int) + words@.subrange(p3 as int, p3 + 1) + words@.subrange(p3 + 1, end as int));
            assert(t.tree_words() =~= words@);
        }
        Some(t)
    }
}

} // verus!

verus! {

impl BoxTree<u32> {
    /// Parses a tree from the bytes `to_bytes` gives; nothing where the bytes hold no valid
    /// tree. What follows the bencoded list is not read.
    pub fn from_bytes(bytes: Vec<u8>) -> (r: Option<BoxTree<u32>>)
        ensures
            r matches Some(t) ==> t.wf()
                && exists|rest: Seq<u8>| #[trigger] (t.tree_bytes() + rest) == bytes@,
            forall|t0: BoxTree<u32>, rest: Seq<u8>| t0.wf() && #[trigger] (t0.tree_bytes() + rest) == bytes@
                ==> (r matches Some(t) && t.tree_words() == t0.tree_words() && t.same_entries(&t0)
                    && t.colors() == t0.colors() && t.datas() == t0.datas()
                    && t.strategy().spec_enabled() == t0.strategy().spec_enabled() && t.same_mips(&t0)
                    && forall|l: usize| l < STORED_MIP_LEVELS ==> #[trigger] t.strategy().method_entry(l) == t0.strategy().method_entry(l)
                        && t.strategy().threshold_entry(l) == t0.strategy().threshold_entry(l)),
    {
        let words = match bdecode_u64s(&bytes) {
            Ok(w) => w,
            Err(_) => {
                proof {
                    assert forall|t0: BoxTree<u32>, rest: Seq<u8>| t0.wf() && #[trigger] (t0.tree_bytes() + rest) == bytes@
                        implies false by {
                        assert(bencode_list(t0.tree_words()) + rest == bytes@);
                    }
                }
                return None;
            },
        };
        proof {
            assert forall|t0: BoxTree<u32>, rest: Seq<u8>| t0.wf() && #[trigger] (t0.tree_bytes() + rest) == bytes@
                implies words@ == t0.tree_words() by {
                assert(bencode_list(t0.tree_words()) + rest == bytes@);
            }
        }
        let r = BoxTree::from_words(&words);
        proof {
            if r is Some {
                let t = r->0;
                let rest = choose|rest: Seq<u8>| #[trigger] (bencode_list(words@) + rest) == bytes@;
                assert(t.tree_bytes() + rest == bytes@);
            }
            assert forall|t0: BoxTree<u32>, rest: Seq<u8>| t0.wf() && #[trigger] (t0.tree_bytes() + rest) == bytes@
                implies (r matches Some(t) && t.tree_words() == t0.tree_words() && t.same_entries(&t0)
                    && t.colors() == t0.colors() && t.datas() == t0.datas()
                    && t.strategy().spec_enabled() == t0.strategy().spec_enabled() && t.same_mips(&t0)
                    && forall|l: usize| l < STORED_MIP_LEVELS ==> #[trigger] t.strategy().method_entry(l) == t0.strategy().method_entry(l)
                        && t.strategy().threshold_entry(l) == t0.strategy().threshold_entry(l)) by {
                assert(words@ == t0.tree_words());
                BoxTree::lemma_same_words_same_entries(r->0, t0);
            }
        }
        r
    }

    /// Reads the version of the library that wrote the tree from the bytes of a tree: the
    /// first three numbers of the bencoded list. Nothing where the bytes hold no such list.
    pub fn parse_version(bytes: &Vec<u8>) -> (r: Option<Version>)
        ensures
            r matches Some(v) ==> exists|ws: Seq<u64>, rest: Seq<u8>| #[trigger] (bencode_list(ws) + rest) == bytes@
                && ws.len() >= 3 && v.triple() == (ws[0] as u32, ws[1] as u32, ws[2] as u32)
                && ws[0] <= u32::MAX && ws[1] <= u32::MAX && ws[2] <= u32::MAX,
            forall|ws: Seq<u64>, rest: Seq<u8>| #[trigger] (bencode_list(ws) + rest) == bytes@
                && ws.len() >= 3 && ws[0] <= u32::MAX && ws[1] <= u32::MAX && ws[2] <= u32::MAX
                ==> (r matches Some(v) && v.triple() == (ws[0] as u32, ws[1] as u32, ws[2] as u32)),
    {
        let words = match bdecode_u64s(bytes) {
            Ok(w) => w,
            Err(_) => { return None; },
        };
        if words.len() < 3 || words[0] > u32::MAX as u64 || words[1] > u32::MAX as u64 || words[2] > u32::MAX as u64 {
            return None;
        }
        Some(Version::new(words[0] as u32, words[1] as u32, words[2] as u32))
    }
}

} // verus!
