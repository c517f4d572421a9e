//! Sparse voxel container organised as a tree of nodes, each node splitting its
//! cube into 4x4x4 children, with bricks of voxels at the bottom and optional
//! MIP maps summarising the colors of every node.
use vstd::prelude::*;
use vstd::string::StrSliceExecFns;

pub mod spatial;
pub mod boxtree;
pub mod raytracing;

verus! {

/// Version of the library, used to decide whether a stored tree can be handled.
#[derive(Debug, PartialEq, Eq, Structural)]
pub struct Version {
    pub(crate) major: u32,
    pub(crate) minor: u32,
    pub(crate) patch: u32,
}

impl Version {
    pub closed spec fn spec_major(&self) -> u32 {
        self.major
    }

    pub closed spec fn spec_minor(&self) -> u32 {
        self.minor
    }

    pub closed spec fn spec_patch(&self) -> u32 {
        self.patch
    }

    /// The triple (major, minor, patch) of the version
    pub open spec fn triple(&self) -> (u32, u32, u32) {
        (self.spec_major(), self.spec_minor(), self.spec_patch())
    }

    /// True if a library of version `lib` is guaranteed to handle a tree of version `tree`
    pub open spec fn spec_compatible(lib: (u32, u32, u32), tree: (u32, u32, u32)) -> bool {
        lib.0 == tree.0 && lib.1 == tree.1 && lib.2 >= tree.2
    }

    /// Builds a version from its three numbers
    pub fn new(major: u32, minor: u32, patch: u32) -> (v: Version)
        ensures
            v.triple() == (major, minor, patch),
    {
        Version { major, minor, patch }
    }

    /// Returns the major version of the library
    /// It increments with major API changes
    pub fn major(&self) -> (r: u32)
        ensures
            r == self.spec_major(),
    {
        self.major
    }

    /// Returns the minor version of the library.
    /// It increments with minor API changes
    pub fn minor(&self) -> (r: u32)
        ensures
            r == self.spec_minor(),
    {
        self.minor
    }

    /// Returns the patch version of the library.
    /// It increments with code modifications not modifying the API
    /// or extending it without making changes to existing API
    pub fn patch(&self) -> (r: u32)
        ensures
            r == self.spec_patch(),
    {
        self.patch
    }

    /// True if the current version is guaranteed to handle the given tree version without errors
    /// The relation is not symmetric: a library may handle trees of earlier patches,
    /// but not the other way round.
    pub fn compatible(&self, tree_version: &Version) -> (r: bool)
        ensures
            r == Version::spec_compatible(self.triple(), tree_version.triple()),
    {
        self.major() == tree_version.major() && self.minor() == tree_version.minor()
            && self.patch() >= tree_version.patch()
    }
}

/// True for the characters `0` to `9`
pub open spec fn is_digit(c: char) -> bool {
    '0' <= c <= '9'
}

/// The value of a run of decimal digits
pub open spec fn digits_value(s: Seq<char>) -> nat
    decreases s.len(),
{
    if s.len() == 0 {
        0
    } else {
        digits_value(s.drop_last()) * 10 + ((s.last() as int) - ('0' as int)) as nat
    }
}

/// The text without its leading `+`, if it has one
pub open spec fn digits_part(p: Seq<char>) -> Seq<char> {
    if p.len() > 0 && p[0] == '+' {
        p.drop_first()
    } else {
        p
    }
}

/// Every character of the text is a decimal digit
pub open spec fn all_digits(d: Seq<char>) -> bool {
    forall|i: int| 0 <= i < d.len() ==> is_digit(#[trigger] d[i])
}

/// The number a piece of text stands for when read as a `u32`: an optional `+` followed by
/// at least one decimal digit, with a value that fits
pub open spec fn parsed_u32(p: Seq<char>) -> Option<u32> {
    let d = digits_part(p);
    if d.len() > 0 && all_digits(d) && digits_value(d) <= u32::MAX {
        Some(digits_value(d) as u32)
    } else {
        None
    }
}

/// The pieces of a text between its dots, in order
pub open spec fn dot_pieces(s: Seq<char>) -> Seq<Seq<char>>
    decreases s.len(),
{
    if s.len() == 0 {
        seq![Seq::empty()]
    } else {
        let prev = dot_pieces(s.drop_last());
        if s.last() == '.' {
            prev.push(Seq::empty())
        } else {
            prev.update(prev.len() - 1, prev.last().push(s.last()))
        }
    }
}

/// Major, minor and patch numbers of a version text: it has at least three dot separated
/// pieces, each of them a number
pub open spec fn version_numbers(s: Seq<char>) -> Option<(u32, u32, u32)> {
    let pieces = dot_pieces(s);
    if pieces.len() >= 3 && forall|i: int| 0 <= i < pieces.len() ==> #[trigger] parsed_u32(pieces[i]) is Some {
        Some((parsed_u32(pieces[0])->0, parsed_u32(pieces[1])->0, parsed_u32(pieces[2])->0))
    } else {
        None
    }
}

proof fn lemma_dot_pieces_nonempty(s: Seq<char>)
    ensures
        dot_pieces(s).len() >= 1,
    decreases s.len(),
{
    if s.len() > 0 {
        lemma_dot_pieces_nonempty(s.drop_last());
    }
}

/// A run of digits is worth at least as much as any of its prefixes
proof fn lemma_digits_value_prefix(d: Seq<char>, k: int)
    requires
        0 <= k <= d.len(),
        all_digits(d),
    ensures
        digits_value(d.subrange(0, k)) <= digits_value(d),
    decreases d.len(),
{
    if k < d.len() {
        assert(d.drop_last().subrange(0, k) =~= d.subrange(0, k));
        lemma_digits_value_prefix(d.drop_last(), k);
    } else {
        assert(d.subrange(0, k) =~= d);
    }
}

/// Reads a piece of text as a `u32` number, as `parsed_u32` describes
fn parse_piece(p: &Vec<char>) -> (r: Option<u32>)
    ensures
        r == parsed_u32(p@),
{
    let n = p.len();
    let start: usize = if n > 0 && p[0] == '+' { 1 } else { 0 };
    let ghost d = digits_part(p@);
    assert(d =~= p@.subrange(start as int, n as int));
    if start == n {
        return None;
    }
    let mut value: u64 = 0;
    let mut i = start;
    while i < n
        invariant
            start <= i <= n,
            n == p@.len(),
            start < n,
            d =~= p@.subrange(start as int, n as int),
            d == digits_part(p@),
            value == digits_value(d.subrange(0, i - start)),
            value <= u32::MAX,
            forall|j: int| 0 <= j < i - start ==> is_digit(#[trigger] d[j]),
        decreases n - i,
    {
        let c = p[i];
        let ghost k = (i - start) as int;
        assert(d[k] == c);
        if !('0' <= c && c <= '9') {
            assert(!is_digit(d[k]));
            assert(!all_digits(d));
            return None;
        }
        let digit = (c as u32 - '0' as u32) as u64;
        assert(d.subrange(0, k + 1).drop_last() =~= d.subrange(0, k));
        assert(d.subrange(0, k + 1).last() == c);
        assert(digit == (c as int) - ('0' as int));
        value = value * 10 + digit;
        assert(value == digits_value(d.subrange(0, k + 1)));
        i += 1;
        if value > u32::MAX as u64 {
            proof {
                if all_digits(d) {
                    lemma_digits_value_prefix(d, k + 1);
                }
            }
            return None;
        }
    }
    assert(d.subrange(0, n - start) =~= d);
    Some(value as u32)
}

/// Reads the major, minor and patch numbers of a version text, as `version_numbers` describes
pub fn parse_version(text: &str) -> (r: Option<Version>)
    ensures
        r is Some <==> version_numbers(text@) is Some,
        r matches Some(v) ==> v.triple() == version_numbers(text@)->0,
{
    let n = text.unicode_len();
    let mut numbers: Vec<u32> = Vec::new();
    let mut cur: Vec<char> = Vec::new();
    let mut ok = true;
    let mut i: usize = 0;
    proof {
        assert(text@.subrange(0, 0) =~= Seq::<char>::empty());
        reveal_with_fuel(dot_pieces, 1);
    }
    while i < n
        invariant
            i <= n,
            n == text@.len(),
            ({
                let pieces = dot_pieces(text@.subrange(0, i as int));
                &&& pieces.len() >= 1
                &&& cur@ == pieces.last()
                &&& ok == forall|j: int| 0 <= j < pieces.len() - 1 ==> #[trigger] parsed_u32(pieces[j]) is Some
                &&& ok ==> numbers@.len() == pieces.len() - 1 && forall|j: int| 0 <= j < numbers@.len() ==> #[trigger] numbers@[j] == parsed_u32(pieces[j])->0
            }),
        decreases n - i,
    {
        let c = text.get_char(i);
        let ghost prev = dot_pieces(text@.subrange(0, i as int));
        proof {
            assert(text@.subrange(0, i + 1).drop_last() =~= text@.subrange(0, i as int));
            assert(text@.subrange(0, i + 1).last() == c);
        }
        if c == '.' {
            let v = parse_piece(&cur);
            match v {
                Some(x) => {
                    if ok {
                        numbers.push(x);
                    }
                },
                None => {
                    ok = false;
                },
            }
            cur = Vec::new();
            proof {
                let pieces = dot_pieces(text@.subrange(0, i + 1));
                assert(pieces == prev.push(Seq::empty()));
                assert(cur@ =~= pieces.last());
                if ok {
                    assert forall|j: int| 0 <= j < numbers@.len() implies #[trigger] numbers@[j] == parsed_u32(pieces[j])->0 by {
                        assert(pieces[j] == prev[j]);
                    }
                }
                assert(ok == forall|j: int| 0 <= j < pieces.len() - 1 ==> #[trigger] parsed_u32(pieces[j]) is Some) by {
                    if ok {
                        assert forall|j: int| 0 <= j < pieces.len() - 1 implies #[trigger] parsed_u32(pieces[j]) is Some by {
                            assert(pieces[j] == prev[j]);
                        }
                    } else {
                        if v is None {
                            assert(pieces[prev.len() - 1] == prev.last());
                        } else {
                            let j0 = choose|j: int| 0 <= j < prev.len() - 1 && !(#[trigger] parsed_u32(prev[j]) is Some);
                            assert(pieces[j0] == prev[j0]);
                        }
                    }
                }
            }
        } else {
            cur.push(c);
            proof {
                let pieces = dot_pieces(text@.subrange(0, i + 1));
                assert(pieces == prev.update(prev.len() - 1, prev.last().push(c)));
                assert(cur@ =~= pieces.last());
                assert forall|j: int| 0 <= j < pieces.len() - 1 implies pieces[j] == prev[j] by {}
                if ok {
                    assert forall|j: int| 0 <= j < numbers@.len() implies #[trigger] numbers@[j] == parsed_u32(pieces[j])->0 by {
                        assert(pieces[j] == prev[j]);
                    }
                }
                assert(ok == forall|j: int| 0 <= j < pieces.len() - 1 ==> #[trigger] parsed_u32(pieces[j]) is Some) by {
                    if !ok {
                        let j0 = choose|j: int| 0 <= j < prev.len() - 1 && !(#[trigger] parsed_u32(prev[j]) is Some);
                        assert(pieces[j0] == prev[j0]);
                    }
                }
            }
        }
        i += 1;
    }
    proof {
        assert(text@.subrange(0, n as int) =~= text@);
    }
    let last = parse_piece(&cur);
    let ghost pieces = dot_pieces(text@);
    match last {
        Some(x) => {
            if ok && numbers.len() >= 2 {
                numbers.push(x);
                proof {
                    assert forall|j: int| 0 <= j < pieces.len() implies #[trigger] parsed_u32(pieces[j]) is Some by {
                        if j < pieces.len() - 1 {
                        }
                    }
                    assert(numbers@[0] == parsed_u32(pieces[0])->0);
                    assert(numbers@[1] == parsed_u32(pieces[1])->0);
                    assert(numbers@[2] == parsed_u32(pieces[2])->0);
                }
                Some(Version { major: numbers[0], minor: numbers[1], patch: numbers[2] })
            } else {
                proof {
                    if !ok {
                        let j0 = choose|j: int| 0 <= j < pieces.len() - 1 && !(#[trigger] parsed_u32(pieces[j]) is Some);
                        assert(!(parsed_u32(pieces[j0]) is Some));
                    }
                }
                None
            }
        },
        None => {
            proof {
                assert(!(parsed_u32(pieces[pieces.len() - 1]) is Some));
            }
            None
        },
    }
}

/// The version of this library, as its package manifest states it
pub fn version() -> (v: Version)
    ensures
        Some(v.triple()) == version_numbers("0.1.0"@),
        v.triple() == (0u32, 1u32, 0u32),
{
    let text = "0.1.0";
    proof {
        reveal_strlit("0.1.0");
        let s = text@;
        assert(s.len() == 5);
        reveal_with_fuel(dot_pieces, 6);
        assert(s.subrange(0, 1) =~= seq!['0']);
        assert(s.subrange(0, 2) =~= seq!['0', '.']);
        assert(s.subrange(0, 3) =~= seq!['0', '.', '1']);
        assert(s.subrange(0, 4) =~= seq!['0', '.', '1', '.']);
        assert(s.subrange(0, 2).drop_last() =~= s.subrange(0, 1));
        assert(s.subrange(0, 3).drop_last() =~= s.subrange(0, 2));
        assert(s.subrange(0, 4).drop_last() =~= s.subrange(0, 3));
        assert(s.drop_last() =~= s.subrange(0, 4));
        assert(s.subrange(0, 1).drop_last() =~= Seq::<char>::empty());
        let p0 = dot_pieces(s.subrange(0, 1));
        assert(p0 =~= seq![seq!['0']]);
        let p1 = dot_pieces(s.subrange(0, 2));
        assert(p1 =~= seq![seq!['0'], Seq::<char>::empty()]);
        let p2 = dot_pieces(s.subrange(0, 3));
        assert(p2 =~= seq![seq!['0'], seq!['1']]);
        let p3 = dot_pieces(s.subrange(0, 4));
        assert(p3 =~= seq![seq!['0'], seq!['1'], Seq::<char>::empty()]);
        let pieces = dot_pieces(s);
        assert(pieces =~= seq![seq!['0'], seq!['1'], seq!['0']]);
        reveal_with_fuel(digits_value, 2);
        assert(seq!['0'].drop_last() =~= Seq::<char>::empty());
        assert(seq!['1'].drop_last() =~= Seq::<char>::empty());
        assert(digits_part(seq!['0']) == seq!['0']);
        assert(digits_part(seq!['1']) == seq!['1']);
        assert(all_digits(seq!['0']));
        assert(all_digits(seq!['1']));
        assert(parsed_u32(seq!['0']) == Some(0u32));
        assert(parsed_u32(seq!['1']) == Some(1u32));
        assert(version_numbers(s) == Some((0u32, 1u32, 0u32)));
    }
    parse_version(text).unwrap()
}

/// Every version handles trees made by itself.
pub proof fn lemma_compatible_reflexive(v: (u32, u32, u32))
    ensures
        Version::spec_compatible(v, v),
{
}

/// Compatibility chains: a library handling trees of a version that itself handles
/// trees of a third version handles those trees too.
pub proof fn lemma_compatible_transitive(a: (u32, u32, u32), b: (u32, u32, u32), c: (u32, u32, u32))
    requires
        Version::spec_compatible(a, b),
        Version::spec_compatible(b, c),
    ensures
        Version::spec_compatible(a, c),
{
}

/// Two versions compatible with each other in both directions are the same version.
pub proof fn lemma_compatible_antisymmetric(a: (u32, u32, u32), b: (u32, u32, u32))
    requires
        Version::spec_compatible(a, b),
        Version::spec_compatible(b, a),
    ensures
        a == b,
{
}

} // verus!
