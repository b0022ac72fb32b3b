//! Canonical Huffman decode trees, built from code-length tables as the
//! DEFLATE rules prescribe: count the codes of each length, derive the first
//! canonical code of each length, assign codes to symbols in label order,
//! and insert each code into a binary tree interpreting its bits
//! most-significant first.

use vstd::prelude::*;

use crate::gz_reader::{GzBitReader, stream_bit};

verus! {

/// "Symbols from the previous range's end plus one through `end`, inclusive,
/// all have code length `bit_length`"; a length of zero marks the symbols as
/// unused.
#[derive(Clone, Copy, PartialEq, Eq, Structural, Debug)]
pub struct HuffmanRange {
    pub end: u32,
    pub bit_length: u32,
}

impl HuffmanRange {
    pub fn new() -> (r: HuffmanRange)
        ensures
            r.end == 0 && r.bit_length == 0,
    {
        HuffmanRange { end: 0, bit_length: 0 }
    }
}

/// A canonical code-table entry: symbol `label` has the `len`-bit code
/// `bits`.
#[derive(PartialEq, Eq, Structural, Debug)]
pub struct TreeNode {
    pub len: usize,
    pub bits: usize,
    pub label: usize,
}

/// A Huffman decode tree: a leaf holds a decoded symbol, an internal node
/// has an optional child for each bit value.
#[derive(PartialEq, Debug)]
pub enum HuffmanNode {
    Node(Option<Box<HuffmanNode>>, Option<Box<HuffmanNode>>),
    Leaf(u32),
}

/// A well-formed range table: non-empty, the range ends strictly
/// increasing, and the last symbol number leaving room for a count of
/// symbols in a `u32`.
pub open spec fn wf_ranges(ranges: Seq<HuffmanRange>) -> bool {
    &&& ranges.len() > 0
    &&& (forall|i: int, j: int|
        #![trigger ranges[i].end, ranges[j].end]
        0 <= i < j < ranges.len() ==> ranges[i].end < ranges[j].end)
    &&& ranges.last().end < 0xffffffffu32
}

/// The declared code length of symbol `n`: the `bit_length` of the first
/// range whose `end` is at or past `n`.
pub open spec fn len_of_sym(ranges: Seq<HuffmanRange>, n: int) -> u32
    decreases ranges.len(),
{
    if ranges.len() == 0 {
        0
    } else if n <= ranges[0].end {
        ranges[0].bit_length
    } else {
        len_of_sym(ranges.subrange(1, ranges.len() as int), n)
    }
}

/// How many symbols numbered below `n` have declared code length `bl`.
pub open spec fn count_syms(ranges: Seq<HuffmanRange>, n: int, bl: u32) -> int
    decreases n,
{
    if n <= 0 {
        0
    } else {
        count_syms(ranges, n - 1, bl) + if len_of_sym(ranges, n - 1) == bl {
            1int
        } else {
            0int
        }
    }
}

proof fn lemma_count_syms_bound(ranges: Seq<HuffmanRange>, n: int, bl: u32)
    ensures
        0 <= count_syms(ranges, n, bl),
        n >= 0 ==> count_syms(ranges, n, bl) <= n,
    decreases n,
{
    if n > 0 {
        lemma_count_syms_bound(ranges, n - 1, bl);
    }
}

/// Symbol `n` inside range `ri` takes that range's code length.
proof fn lemma_len_of_sym_at(ranges: Seq<HuffmanRange>, ri: int, n: int)
    requires
        wf_ranges(ranges),
        0 <= ri < ranges.len(),
        n <= ranges[ri].end,
        ri == 0 ==> 0 <= n,
        ri > 0 ==> ranges[ri - 1].end < n,
    ensures
        len_of_sym(ranges, n) == ranges[ri].bit_length,
    decreases ri,
{
    if ri > 0 {
        let sub = ranges.subrange(1, ranges.len() as int);
        assert(ranges[0].end <= ranges[ri - 1].end);
        assert(forall|i: int, j: int|
            #![trigger sub[i].end, sub[j].end]
            0 <= i < j < sub.len() ==> sub[i].end < sub[j].end);
        assert(sub.last() == ranges.last());
        lemma_len_of_sym_at(sub, ri - 1, n);
    }
}

/// Counting over an interval of symbols that share one code length.
proof fn lemma_count_interval(ranges: Seq<HuffmanRange>, p: int, e: int, bl: u32, bl0: u32)
    requires
        -1 <= p <= e,
        forall|n: int| p < n <= e ==> #[trigger] len_of_sym(ranges, n) == bl0,
    ensures
        count_syms(ranges, e + 1, bl) == count_syms(ranges, p + 1, bl) + if bl == bl0 {
            e - p
        } else {
            0int
        },
    decreases e - p,
{
    if p < e {
        lemma_count_interval(ranges, p, e - 1, bl, bl0);
        assert(len_of_sym(ranges, e) == bl0);
        assert(count_syms(ranges, e + 1, bl) == count_syms(ranges, e, bl) + if len_of_sym(
            ranges,
            e,
        ) == bl {
            1int
        } else {
            0int
        });
    }
}

/// Determine the number of codes of each bit length: entry `j` of the
/// result counts the symbols of length `j + 1`.
pub fn count_bitlengths(ranges: &Vec<HuffmanRange>, max_bit_length: usize) -> (r: Vec<u32>)
    requires
        wf_ranges(ranges@),
        max_bit_length <= 0xffffffff,
        forall|i: int|
            0 <= i < ranges@.len() ==> (#[trigger] ranges@[i].bit_length) <= max_bit_length,
    ensures
        r@.len() == max_bit_length,
        forall|j: int|
            0 <= j < max_bit_length ==> #[trigger] r@[j] == count_syms(
                ranges@,
                ranges@.last().end + 1,
                (j + 1) as u32,
            ),
{
    let mut bl_count: Vec<u32> = Vec::new();
    let mut z: usize = 0;
    while z < max_bit_length
        invariant
            z <= max_bit_length,
            bl_count@.len() == z,
            forall|j: int| 0 <= j < z ==> #[trigger] bl_count@[j] == 0,
        decreases max_bit_length - z,
    {
        bl_count.push(0);
        z += 1;
    }

    let first = ranges[0];
    if first.bit_length > 0 {
        let idx = (first.bit_length - 1) as usize;
        let cur = bl_count[idx];
        bl_count.set(idx, cur + (first.end + 1));
    }
    proof {
        assert forall|n: int| -1 < n <= first.end implies #[trigger] len_of_sym(ranges@, n)
            == first.bit_length by {
            lemma_len_of_sym_at(ranges@, 0, n);
        }
        assert forall|j: int| 0 <= j < max_bit_length implies #[trigger] bl_count@[j]
            == count_syms(ranges@, ranges@[0].end + 1, (j + 1) as u32) by {
            lemma_count_interval(ranges@, -1, first.end as int, (j + 1) as u32, first.bit_length);
        }
    }

    let mut ri: usize = 1;
    while ri < ranges.len()
        invariant
            wf_ranges(ranges@),
            max_bit_length <= 0xffffffff,
            forall|i: int|
                0 <= i < ranges@.len() ==> (#[trigger] ranges@[i].bit_length) <= max_bit_length,
            1 <= ri <= ranges@.len(),
            bl_count@.len() == max_bit_length,
            forall|j: int|
                0 <= j < max_bit_length ==> #[trigger] bl_count@[j] == count_syms(
                    ranges@,
                    ranges@[ri - 1].end + 1,
                    (j + 1) as u32,
                ),
        decreases ranges@.len() - ri,
    {
        let range = ranges[ri];
        let prev_end = ranges[ri - 1].end;
        proof {
            assert forall|n: int| prev_end < n <= range.end implies #[trigger] len_of_sym(
                ranges@,
                n,
            ) == range.bit_length by {
                lemma_len_of_sym_at(ranges@, ri as int, n);
            }
        }
        if range.bit_length > 0 {
            let idx = (range.bit_length - 1) as usize;
            let cur = bl_count[idx];
            proof {
                lemma_count_syms_bound(ranges@, prev_end + 1, range.bit_length);
            }
            bl_count.set(idx, cur + (range.end - prev_end));
        }
        proof {
            assert(prev_end < range.end);
            assert forall|j: int| 0 <= j < max_bit_length implies #[trigger] bl_count@[j]
                == count_syms(ranges@, ranges@[ri as int].end + 1, (j + 1) as u32) by {
                let bl = (j + 1) as u32;
                lemma_count_interval(
                    ranges@,
                    prev_end as int,
                    range.end as int,
                    bl,
                    range.bit_length,
                );
                assert(count_syms(ranges@, range.end + 1, bl) == count_syms(
                    ranges@,
                    prev_end + 1,
                    bl,
                ) + if bl == range.bit_length {
                    range.end - prev_end
                } else {
                    0int
                });
                assert(ranges@[ri as int].end == range.end);
            }
        }
        ri += 1;
    }
    bl_count
}

/// The running first-code value after the lengths below `bits + 1` have
/// been folded in: the first canonical code of each length is the first
/// code of the previous length plus that length's population, shifted left
/// once.  The arithmetic is modulo two to the thirty-second, as the
/// machine-word computation performs it.
pub open spec fn next_code_val(bl_count: Seq<u32>, bits: int) -> u32
    decreases bits,
{
    if bits <= 0 {
        0
    } else {
        ((((next_code_val(bl_count, bits - 1) as u64) + (bl_count[bits - 1] as u64))
            * 2) as u32)
    }
}

/// Compute the first canonical codeword of each bit length; entry `j` is
/// the first code of length `j + 1`, or zero where no such codes exist.
pub fn compute_first_codes(bl_count: &Vec<u32>, max_bit_length: usize) -> (r: Vec<u32>)
    ensures
        r@.len() == bl_count@.len(),
        forall|j: int|
            0 <= j < bl_count@.len() ==> #[trigger] r@[j] == if bl_count@[j] > 0 {
                next_code_val(bl_count@, j)
            } else {
                0u32
            },
{
    let mut ret: Vec<u32> = Vec::new();
    let mut code: u32 = 0;
    let mut bits: usize = 0;
    while bits < bl_count.len()
        invariant
            bits <= bl_count@.len(),
            ret@.len() == bits,
            code == next_code_val(bl_count@, bits as int - 1),
            forall|j: int|
                0 <= j < bits ==> #[trigger] ret@[j] == if bl_count@[j] > 0 {
                    next_code_val(bl_count@, j)
                } else {
                    0u32
                },
        decreases bl_count@.len() - bits,
    {
        if bits >= 1 {
            let widened: u64 = (code as u64) + (bl_count[bits - 1] as u64);
            code = (widened * 2) as u32;
        }
        ret.push(
            if bl_count[bits] > 0 {
                code
            } else {
                0
            },
        );
        bits += 1;
    }
    ret
}

/// `x` plus `c`, modulo two to the thirty-second.
pub open spec fn code_plus(x: u32, c: int) -> u32 {
    (((x + c) % 0x1_0000_0000) as u32)
}

/// A truncating cast to `u32` keeps the value modulo two to the
/// thirty-second.
proof fn lemma_u64_low32(v: u64)
    by (bit_vector)
    ensures
        v as u32 == (v % 0x1_0000_0000) as u32,
{
}

proof fn lemma_code_plus_step(x: u32, c: int)
    requires
        c >= 0,
    ensures
        code_plus(code_plus(x, c), 1) == code_plus(x, c + 1),
{
    let m = 0x1_0000_0000int;
    assert((((x + c) % m) + 1) % m == (x + c + 1) % m) by {
        vstd::arithmetic::div_mod::lemma_mod_adds(x + c, 1, m);
        vstd::arithmetic::div_mod::lemma_mod_twice(x + c, m);
        vstd::arithmetic::div_mod::lemma_mod_adds((x + c) % m, 1, m);
        vstd::arithmetic::div_mod::lemma_small_mod(1, m as nat);
    }
}

/// The canonical code assigned to symbol `n`: the first code of its length
/// plus the number of earlier symbols sharing that length.
pub open spec fn spec_code_for(first_codes: Seq<u32>, ranges: Seq<HuffmanRange>, n: int) -> u32 {
    let bl = len_of_sym(ranges, n);
    code_plus(first_codes[bl - 1], count_syms(ranges, n, bl))
}

/// The canonical code table for the symbols numbered below `n`: each used
/// symbol in label order, with its length and assigned code.
pub open spec fn spec_code_table(
    first_codes: Seq<u32>,
    ranges: Seq<HuffmanRange>,
    n: int,
) -> Seq<TreeNode>
    decreases n,
{
    if n <= 0 {
        Seq::empty()
    } else {
        let t = spec_code_table(first_codes, ranges, n - 1);
        let bl = len_of_sym(ranges, n - 1);
        if bl > 0 {
            t.push(
                TreeNode {
                    len: bl as usize,
                    bits: spec_code_for(first_codes, ranges, n - 1) as usize,
                    label: (n - 1) as usize,
                },
            )
        } else {
            t
        }
    }
}

/// Assign codes to each symbol of each range, in label order: a symbol of
/// length `L` takes the current `next_code` entry for `L`, which is then
/// stepped.  Unused symbols (length zero) are skipped.
pub fn compute_code_table(next_code: &mut Vec<u32>, ranges: &Vec<HuffmanRange>) -> (r: Vec<
    TreeNode,
>)
    requires
        wf_ranges(ranges@),
        old(next_code)@.len() <= 0xffffffff,
        forall|i: int|
            0 <= i < ranges@.len() ==> (#[trigger] ranges@[i].bit_length) as int <= old(
                next_code,
            )@.len(),
    ensures
        r@ == spec_code_table(old(next_code)@, ranges@, ranges@.last().end + 1),
        final(next_code)@.len() == old(next_code)@.len(),
        forall|j: int|
            0 <= j < old(next_code)@.len() ==> #[trigger] final(next_code)@[j] == code_plus(
                old(next_code)@[j],
                count_syms(ranges@, ranges@.last().end + 1, (j + 1) as u32),
            ),
{
    let ghost v0 = next_code@;
    let mut ret: Vec<TreeNode> = Vec::new();
    let mut active_range: usize = 0;
    let nranges: usize = ranges.len();
    let num_entries = ranges[nranges - 1].end;
    let mut n: u32 = 0;
    while n <= num_entries
        invariant
            wf_ranges(ranges@),
            v0.len() <= 0xffffffff,
            forall|i: int|
                0 <= i < ranges@.len() ==> (#[trigger] ranges@[i].bit_length) as int <= v0.len(),
            num_entries == ranges@.last().end,
            nranges == ranges@.len(),
            active_range < nranges,
            n <= num_entries + 1,
            n <= ranges@[active_range as int].end + 1,
            active_range > 0 ==> ranges@[active_range - 1].end < n,
            ret@ == spec_code_table(v0, ranges@, n as int),
            next_code@.len() == v0.len(),
            forall|j: int|
                0 <= j < v0.len() ==> #[trigger] next_code@[j] == code_plus(
                    v0[j],
                    count_syms(ranges@, n as int, (j + 1) as u32),
                ),
        decreases num_entries + 1 - n,
    {
        if n > ranges[active_range].end {
            proof {
                assert(ranges@.last() == ranges@[ranges@.len() - 1]);
                if active_range + 1 == nranges {
                    assert(n > ranges@.last().end);
                    assert(false);
                }
            }
            active_range += 1;
        }
        let range = ranges[active_range];
        proof {
            lemma_len_of_sym_at(ranges@, active_range as int, n as int);
        }
        let ghost pre = next_code@;
        if range.bit_length > 0 {
            let bl_idx = (range.bit_length - 1) as usize;
            let code = next_code[bl_idx];
            let tree = TreeNode {
                len: range.bit_length as usize,
                bits: code as usize,
                label: n as usize,
            };
            let widened: u64 = (code as u64) + 1;
            next_code.set(bl_idx, widened as u32);
            ret.push(tree);
            proof {
                lemma_count_syms_bound(ranges@, n as int, range.bit_length);
                lemma_code_plus_step(
                    v0[bl_idx as int],
                    count_syms(ranges@, n as int, range.bit_length),
                );
            }
        }
        proof {
            let nn = n as int;
            assert forall|j: int| 0 <= j < v0.len() implies #[trigger] next_code@[j] == code_plus(
                v0[j],
                count_syms(ranges@, nn + 1, (j + 1) as u32),
            ) by {
                let bl = (j + 1) as u32;
                assert(count_syms(ranges@, nn + 1, bl) == count_syms(ranges@, nn, bl)
                    + if len_of_sym(ranges@, nn) == bl {
                    1int
                } else {
                    0int
                });
                if range.bit_length > 0 {
                    let bi = range.bit_length - 1;
                    if j == bi {
                        assert(bl == range.bit_length);
                        assert(pre[j] == code_plus(v0[j], count_syms(ranges@, nn, bl)));
                        let v: u64 = (pre[j] + 1) as u64;
                        lemma_u64_low32(v);
                        assert((v as u32) == code_plus(pre[j], 1));
                        assert(next_code@[j] == code_plus(pre[j], 1));
                        lemma_count_syms_bound(ranges@, nn, bl);
                        lemma_code_plus_step(v0[j], count_syms(ranges@, nn, bl));
                    } else {
                        assert(next_code@[j] == pre[j]);
                        assert(len_of_sym(ranges@, nn) != bl);
                    }
                } else {
                    assert(next_code@[j] == pre[j]);
                    assert(len_of_sym(ranges@, nn) != bl);
                }
            }
        }
        n += 1;
    }
    ret
}

/// Bit `index` of `input`, counting from the least significant position.
pub open spec fn spec_get_bit(input: usize, index: usize) -> usize {
    if input & (1usize << index) > 0 {
        1
    } else {
        0
    }
}

/// Extract bit `index` of `input`.
pub fn get_bit(input: usize, index: usize) -> (r: usize)
    requires
        index < 32,
    ensures
        r == spec_get_bit(input, index),
        r <= 1,
{
    if input & (1usize << index) > 0 {
        1
    } else {
        0
    }
}

/// Walk a code's bits most-significant first (bit `d - 1` of `bits` chooses
/// the root's child, and so on down to bit 0) and return the label of the
/// leaf the path ends at, if the path exists and ends exactly there.
pub open spec fn tree_path(t: HuffmanNode, bits: usize, d: nat) -> Option<u32>
    decreases d,
{
    match t {
        HuffmanNode::Leaf(v) => if d == 0 {
            Some(v)
        } else {
            None
        },
        HuffmanNode::Node(l, r) => {
            if d == 0 {
                None
            } else {
                let side = if spec_get_bit(bits, (d - 1) as usize) == 0 {
                    l
                } else {
                    r
                };
                match side {
                    None => None,
                    Some(sub) => tree_path(*sub, bits, (d - 1) as nat),
                }
            }
        },
    }
}

/// `tree_path` lifted to an optional subtree.
pub open spec fn path_opt(t: Option<Box<HuffmanNode>>, bits: usize, d: nat) -> Option<u32> {
    match t {
        None => None,
        Some(b) => tree_path(*b, bits, d),
    }
}

/// Insert the `d`-bit code `bits` for symbol `label` into the subtree `t`,
/// interpreting the code most-significant bit first.  Returns `None` when
/// the path collides with an existing leaf or occupied slot, which marks
/// the code-length table as malformed.
pub open spec fn spec_insert(
    t: Option<Box<HuffmanNode>>,
    bits: usize,
    d: nat,
    label: u32,
) -> Option<Option<Box<HuffmanNode>>>
    decreases d,
{
    if d == 0 {
        match t {
            None => Some(Some(Box::new(HuffmanNode::Leaf(label)))),
            Some(_) => None,
        }
    } else {
        match t {
            None => {
                match spec_insert(None, bits, (d - 1) as nat, label) {
                    None => None,
                    Some(child) => Some(
                        Some(
                            Box::new(
                                if spec_get_bit(bits, (d - 1) as usize) == 0 {
                                    HuffmanNode::Node(child, None)
                                } else {
                                    HuffmanNode::Node(None, child)
                                },
                            ),
                        ),
                    ),
                }
            },
            Some(sub) => match *sub {
                HuffmanNode::Leaf(_) => None,
                HuffmanNode::Node(l, r) => {
                    if spec_get_bit(bits, (d - 1) as usize) == 0 {
                        match spec_insert(l, bits, (d - 1) as nat, label) {
                            None => None,
                            Some(l2) => Some(Some(Box::new(HuffmanNode::Node(l2, r)))),
                        }
                    } else {
                        match spec_insert(r, bits, (d - 1) as nat, label) {
                            None => None,
                            Some(r2) => Some(Some(Box::new(HuffmanNode::Node(l, r2)))),
                        }
                    }
                },
            },
        }
    }
}

/// A successful insert creates the inserted code's path.
proof fn lemma_insert_path(t: Option<Box<HuffmanNode>>, bits: usize, d: nat, label: u32)
    requires
        spec_insert(t, bits, d, label) is Some,
    ensures
        path_opt(spec_insert(t, bits, d, label).unwrap(), bits, d) == Some(label),
    decreases d,
{
    if d > 0 {
        match t {
            None => {
                lemma_insert_path(None, bits, (d - 1) as nat, label);
            },
            Some(sub) => match *sub {
                HuffmanNode::Leaf(_) => {},
                HuffmanNode::Node(l, r) => {
                    if spec_get_bit(bits, (d - 1) as usize) == 0 {
                        lemma_insert_path(l, bits, (d - 1) as nat, label);
                    } else {
                        lemma_insert_path(r, bits, (d - 1) as nat, label);
                    }
                },
            },
        }
    }
}

/// A successful insert leaves every already-existing path intact.
proof fn lemma_insert_frame(
    t: Option<Box<HuffmanNode>>,
    bits: usize,
    d: nat,
    label: u32,
    bits2: usize,
    d2: nat,
)
    requires
        spec_insert(t, bits, d, label) is Some,
        path_opt(t, bits2, d2) is Some,
    ensures
        path_opt(spec_insert(t, bits, d, label).unwrap(), bits2, d2) == path_opt(t, bits2, d2),
    decreases d,
{
    if d > 0 {
        match t {
            None => {},
            Some(sub) => match *sub {
                HuffmanNode::Leaf(_) => {},
                HuffmanNode::Node(l, r) => {
                    if d2 > 0 {
                        if spec_get_bit(bits, (d - 1) as usize) == 0 {
                            if spec_get_bit(bits2, (d2 - 1) as usize) == 0 && path_opt(
                                l,
                                bits2,
                                (d2 - 1) as nat,
                            ) is Some {
                                lemma_insert_frame(
                                    l,
                                    bits,
                                    (d - 1) as nat,
                                    label,
                                    bits2,
                                    (d2 - 1) as nat,
                                );
                            }
                        } else {
                            if spec_get_bit(bits2, (d2 - 1) as usize) == 1 && path_opt(
                                r,
                                bits2,
                                (d2 - 1) as nat,
                            ) is Some {
                                lemma_insert_frame(
                                    r,
                                    bits,
                                    (d - 1) as nat,
                                    label,
                                    bits2,
                                    (d2 - 1) as nat,
                                );
                            }
                        }
                    }
                },
            },
        }
    }
}

/// The tree after the first `n` entries of the code table have been
/// inserted into an empty root, or `None` once any insert collides.
pub open spec fn spec_build_root(table: Seq<TreeNode>, n: int) -> Option<
    Option<Box<HuffmanNode>>,
>
    decreases n,
{
    if n <= 0 {
        Some(Some(Box::new(HuffmanNode::Node(None, None))))
    } else {
        match spec_build_root(table, n - 1) {
            None => None,
            Some(rt) => spec_insert(
                rt,
                table[n - 1].bits,
                table[n - 1].len as nat,
                table[n - 1].label as u32,
            ),
        }
    }
}

/// The decode tree for a whole code table.
pub open spec fn spec_build_tree(table: Seq<TreeNode>) -> Option<HuffmanNode> {
    match spec_build_root(table, table.len() as int) {
        None => None,
        Some(rt) => match rt {
            None => None,
            Some(b) => Some(*b),
        },
    }
}

/// The built root is always an internal node, and it decodes every entry
/// of the code table: following entry `i`'s code bits, most-significant
/// first, walks a path of exactly `len` edges ending in a leaf labelled
/// with the entry's symbol.
proof fn lemma_build_root_paths(table: Seq<TreeNode>, n: int)
    requires
        n <= table.len(),
        spec_build_root(table, n) is Some,
    ensures
        spec_build_root(table, n).unwrap() matches Some(b) && (*b) is Node,
        forall|i: int|
            0 <= i < n ==> path_opt(
                spec_build_root(table, n).unwrap(),
                table[i].bits,
                table[i].len as nat,
            ) == Some(table[i].label as u32),
    decreases n,
{
    if n > 0 {
        lemma_build_root_paths(table, n - 1);
        let prev = spec_build_root(table, n - 1).unwrap();
        let e = table[n - 1];
        lemma_insert_path(prev, e.bits, e.len as nat, e.label as u32);
        assert forall|i: int| 0 <= i < n - 1 implies path_opt(
            spec_build_root(table, n).unwrap(),
            table[i].bits,
            table[i].len as nat,
        ) == Some(table[i].label as u32) by {
            lemma_insert_frame(
                prev,
                e.bits,
                e.len as nat,
                e.label as u32,
                table[i].bits,
                table[i].len as nat,
            );
        }
    }
}

/// A tree built from a code table decodes each of the table's symbols: for
/// every entry, following its canonical code's bits most-significant first
/// traces a root-to-leaf path of exactly the entry's declared length ending
/// at the entry's label.  The path is unique because each bit sequence
/// determines at most one walk of the tree.
pub proof fn lemma_tree_decodes_code_table(table: Seq<TreeNode>, t: HuffmanNode)
    requires
        spec_build_tree(table) == Some(t),
    ensures
        forall|i: int|
            0 <= i < table.len() ==> tree_path(t, table[i].bits, table[i].len as nat) == Some(
                table[i].label as u32,
            ),
{
    lemma_build_root_paths(table, table.len() as int);
}

/// Once an insert fails, the whole build fails.
proof fn lemma_build_root_none(table: Seq<TreeNode>, n: int, m: int)
    requires
        n <= m,
        spec_build_root(table, n) is None,
    ensures
        spec_build_root(table, m) is None,
    decreases m - n,
{
    if n < m {
        lemma_build_root_none(table, n, m - 1);
    }
}

/// Insert one code into a subtree; `None` reports a collision.
fn insert_code(t: Option<Box<HuffmanNode>>, bits: usize, d: usize, label: u32) -> (r: Option<
    Option<Box<HuffmanNode>>,
>)
    requires
        d <= 32,
    ensures
        r == spec_insert(t, bits, d as nat, label),
    decreases d,
{
    if d == 0 {
        match t {
            None => Some(Some(Box::new(HuffmanNode::Leaf(label)))),
            Some(_) => None,
        }
    } else {
        match t {
            None => {
                match insert_code(None, bits, d - 1, label) {
                    None => None,
                    Some(child) => {
                        let node = if get_bit(bits, d - 1) == 0 {
                            HuffmanNode::Node(child, None)
                        } else {
                            HuffmanNode::Node(None, child)
                        };
                        Some(Some(Box::new(node)))
                    },
                }
            },
            Some(sub) => match *sub {
                HuffmanNode::Leaf(_) => None,
                HuffmanNode::Node(l, r) => {
                    if get_bit(bits, d - 1) == 0 {
                        match insert_code(l, bits, d - 1, label) {
                            None => None,
                            Some(l2) => Some(Some(Box::new(HuffmanNode::Node(l2, r)))),
                        }
                    } else {
                        match insert_code(r, bits, d - 1, label) {
                            None => None,
                            Some(r2) => Some(Some(Box::new(HuffmanNode::Node(l, r2)))),
                        }
                    }
                },
            },
        }
    }
}

/// Create the Huffman tree from the code table, inserting each entry's
/// code with its bits interpreted most-significant first.  Fails on a
/// malformed table whose codes collide.
pub fn build_tree(code_table: &Vec<TreeNode>) -> (r: Option<HuffmanNode>)
    requires
        forall|i: int| 0 <= i < code_table@.len() ==> (#[trigger] code_table@[i].len) <= 32,
        forall|i: int|
            0 <= i < code_table@.len() ==> (#[trigger] code_table@[i].label) <= 0xffffffff,
    ensures
        r == spec_build_tree(code_table@),
        r matches Some(t) ==> t is Node,
{
    let mut root: Option<Box<HuffmanNode>> = Some(Box::new(HuffmanNode::Node(None, None)));
    let mut n: usize = 0;
    while n < code_table.len()
        invariant
            forall|i: int| 0 <= i < code_table@.len() ==> (#[trigger] code_table@[i].len) <= 32,
            forall|i: int|
                0 <= i < code_table@.len() ==> (#[trigger] code_table@[i].label) <= 0xffffffff,
            n <= code_table@.len(),
            spec_build_root(code_table@, n as int) == Some(root),
        decreases code_table@.len() - n,
    {
        let e_bits = code_table[n].bits;
        let e_len = code_table[n].len;
        let e_label = code_table[n].label as u32;
        root = match insert_code(root, e_bits, e_len, e_label) {
            None => {
                proof {
                    lemma_build_root_none(code_table@, n + 1, code_table@.len() as int);
                }
                return None;
            },
            Some(t2) => t2,
        };
        n += 1;
    }
    proof {
        lemma_build_root_paths(code_table@, code_table@.len() as int);
    }
    match root {
        None => None,
        Some(b) => Some(*b),
    }
}

/// Decode one symbol from the bit stream `data` starting at bit `k`: walk
/// the tree, one stream bit per internal node, and return the leaf's
/// symbol with the position of the first unconsumed bit.
pub open spec fn tree_decode(t: HuffmanNode, data: Seq<u8>, k: int) -> Option<(u32, int)>
    decreases t,
{
    match t {
        HuffmanNode::Leaf(v) => Some((v, k)),
        HuffmanNode::Node(l, r) => {
            if k >= 8 * (data.len() as int) {
                None
            } else {
                let side = if stream_bit(data, k) == 0 {
                    l
                } else {
                    r
                };
                match side {
                    None => None,
                    Some(sub) => tree_decode(*sub, data, k + 1),
                }
            }
        },
    }
}

/// Decoding from an internal node consumes at least one bit and never
/// moves the cursor backwards or past the end.
pub proof fn lemma_tree_decode_advances(t: HuffmanNode, data: Seq<u8>, k: int)
    requires
        tree_decode(t, data, k) is Some,
    ensures
        k <= tree_decode(t, data, k).unwrap().1,
        t is Node ==> k < tree_decode(t, data, k).unwrap().1 <= 8 * (data.len() as int),
        t is Leaf ==> tree_decode(t, data, k).unwrap().1 == k,
    decreases t,
{
    match t {
        HuffmanNode::Leaf(_) => {},
        HuffmanNode::Node(l, r) => {
            let side = if stream_bit(data, k) == 0 {
                l
            } else {
                r
            };
            match side {
                None => {},
                Some(sub) => {
                    lemma_tree_decode_advances(*sub, data, k + 1);
                },
            }
        },
    }
}

/// A code path realized on the bit stream is exactly what decoding
/// follows: when the tree holds a `d`-edge path for `bits` ending in a
/// leaf, and the `d` stream bits from position `k` spell that code most
/// significant first, decoding from `k` yields the leaf's symbol and
/// stops after exactly `d` bits.
pub proof fn lemma_path_decodes_stream(
    t: HuffmanNode,
    bits: usize,
    d: nat,
    data: Seq<u8>,
    k: int,
)
    requires
        tree_path(t, bits, d) is Some,
        k >= 0,
        k + d <= 8 * (data.len() as int),
        forall|i: int|
            0 <= i < d ==> #[trigger] stream_bit(data, k + i) == spec_get_bit(
                bits,
                ((d - 1 - i) as usize),
            ),
    ensures
        tree_decode(t, data, k) == Some((tree_path(t, bits, d).unwrap(), k + d)),
    decreases d,
{
    match t {
        HuffmanNode::Leaf(_) => {},
        HuffmanNode::Node(l, r) => {
            assert(stream_bit(data, k + 0) == spec_get_bit(bits, ((d - 1 - 0) as usize)));
            assert(stream_bit(data, k) == spec_get_bit(bits, (d - 1) as usize));
            let side = if spec_get_bit(bits, (d - 1) as usize) == 0 {
                l
            } else {
                r
            };
            match side {
                None => {},
                Some(sub) => {
                    assert forall|i: int| 0 <= i < d - 1 implies #[trigger] stream_bit(
                        data,
                        k + 1 + i,
                    ) == spec_get_bit(bits, (((d - 1) - 1 - i) as usize)) by {
                        assert(stream_bit(data, k + (i + 1)) == spec_get_bit(
                            bits,
                            ((d - 1 - (i + 1)) as usize),
                        ));
                    }
                    lemma_path_decodes_stream(*sub, bits, (d - 1) as nat, data, k + 1);
                },
            }
        },
    }
}

impl HuffmanNode {
    /// Decode one symbol by walking the tree, pulling one bit from the
    /// stream for every internal node passed.
    pub fn read(&self, stream: &mut GzBitReader) -> (r: Option<u32>)
        requires
            old(stream).wf(),
        ensures
            final(stream).wf(),
            final(stream).bytes() == old(stream).bytes(),
            final(stream).consumed() >= old(stream).consumed(),
            match tree_decode(*self, old(stream).bytes(), old(stream).consumed()) {
                Some(p) => r == Some(p.0) && final(stream).consumed() == p.1,
                None => r is None,
            },
        decreases self,
    {
        match self {
            HuffmanNode::Leaf(v) => Some(*v),
            HuffmanNode::Node(left, right) => {
                proof {
                    old(stream).lemma_consumed_in_range();
                }
                let bit = match stream.next_bit() {
                    Some(b) => b,
                    None => {
                        return None;
                    },
                };
                let target = if bit == 0 {
                    left
                } else {
                    right
                };
                match target {
                    None => None,
                    Some(sub) => sub.read(stream),
                }
            },
        }
    }

    /// Walk the tree along the `len`-bit code `bits`, most-significant bit
    /// first, without a bit stream.
    pub fn read_test(&self, bits: usize, len: usize) -> (r: Option<u32>)
        requires
            len <= 32,
        ensures
            r == tree_path(*self, bits, len as nat),
        decreases self,
    {
        match self {
            HuffmanNode::Leaf(v) => {
                if len == 0 {
                    Some(*v)
                } else {
                    None
                }
            },
            HuffmanNode::Node(left, right) => {
                if len == 0 {
                    None
                } else {
                    let target = if get_bit(bits, len - 1) == 0 {
                        left
                    } else {
                        right
                    };
                    match target {
                        None => None,
                        Some(sub) => sub.read_test(bits, len - 1),
                    }
                }
            },
        }
    }
}

/// The largest declared code length of any range.
pub open spec fn spec_max_bl(ranges: Seq<HuffmanRange>) -> u32
    decreases ranges.len(),
{
    if ranges.len() == 0 {
        0
    } else {
        let m = spec_max_bl(ranges.drop_last());
        if ranges.last().bit_length > m {
            ranges.last().bit_length
        } else {
            m
        }
    }
}

/// The population of each code length, for lengths one through `maxbl`.
pub open spec fn spec_bl_counts(ranges: Seq<HuffmanRange>, maxbl: int) -> Seq<u32> {
    Seq::new(
        maxbl as nat,
        |j: int| count_syms(ranges, ranges.last().end + 1, (j + 1) as u32) as u32,
    )
}

/// The first canonical code of each length, zero where the length is
/// unused.
pub open spec fn spec_first_codes(bl_count: Seq<u32>) -> Seq<u32> {
    Seq::new(
        bl_count.len(),
        |j: int|
            if bl_count[j] > 0 {
                next_code_val(bl_count, j)
            } else {
                0u32
            },
    )
}

/// The canonical decode tree of a whole range table: count lengths, derive
/// first codes, assign codes in label order, insert into a binary tree.
#[verifier::opaque]
pub open spec fn spec_huffman_tree(ranges: Seq<HuffmanRange>) -> Option<HuffmanNode> {
    let bl_count = spec_bl_counts(ranges, spec_max_bl(ranges) as int);
    let first = spec_first_codes(bl_count);
    spec_build_tree(spec_code_table(first, ranges, ranges.last().end + 1))
}

/// A symbol's declared length never exceeds the largest length any range
/// declares.
proof fn lemma_len_of_sym_bounded(ranges: Seq<HuffmanRange>, n: int, bound: u32)
    requires
        forall|i: int| 0 <= i < ranges.len() ==> (#[trigger] ranges[i].bit_length) <= bound,
    ensures
        len_of_sym(ranges, n) <= bound,
    decreases ranges.len(),
{
    if ranges.len() == 0 {
    } else if n <= ranges[0].end {
    } else {
        let sub = ranges.subrange(1, ranges.len() as int);
        assert(forall|i: int|
            0 <= i < sub.len() ==> (#[trigger] sub[i].bit_length) == ranges[i + 1].bit_length);
        lemma_len_of_sym_bounded(sub, n, bound);
    }
}

/// Every code-table entry records a positive length bounded by the
/// declared lengths, and a label below the symbol count.
proof fn lemma_code_table_entries(
    first_codes: Seq<u32>,
    ranges: Seq<HuffmanRange>,
    n: int,
    bound: u32,
)
    requires
        forall|i: int| 0 <= i < ranges.len() ==> (#[trigger] ranges[i].bit_length) <= bound,
    ensures
        forall|i: int|
            0 <= i < spec_code_table(first_codes, ranges, n).len() ==> 1 <= (
            #[trigger] spec_code_table(first_codes, ranges, n)[i]).len <= bound
                && spec_code_table(first_codes, ranges, n)[i].label < n,
    decreases n,
{
    if n > 0 {
        lemma_code_table_entries(first_codes, ranges, n - 1, bound);
        lemma_len_of_sym_bounded(ranges, n - 1, bound);
        let prev = spec_code_table(first_codes, ranges, n - 1);
        let cur = spec_code_table(first_codes, ranges, n);
        assert forall|i: int| 0 <= i < cur.len() implies 1 <= (#[trigger] cur[i]).len <= bound
            && cur[i].label < n by {
            if i < prev.len() {
                assert(cur[i] == prev[i]);
            }
        }
    }
}

/// The largest declared length bounds every range's length.
proof fn lemma_max_bl_bound(ranges: Seq<HuffmanRange>)
    ensures
        forall|i: int|
            0 <= i < ranges.len() ==> (#[trigger] ranges[i].bit_length) <= spec_max_bl(ranges),
    decreases ranges.len(),
{
    if ranges.len() > 0 {
        lemma_max_bl_bound(ranges.drop_last());
        assert forall|i: int| 0 <= i < ranges.len() implies (#[trigger] ranges[i].bit_length)
            <= spec_max_bl(ranges) by {
            if i < ranges.len() - 1 {
                assert(ranges.drop_last()[i] == ranges[i]);
            }
        }
    }
}

/// Build the Huffman tree for a set of ranges, canonical per the DEFLATE
/// rules.  An empty alphabet fails; DEFLATE code lengths never exceed
/// fifteen bits.
pub fn build_huffman_tree(ranges: &Vec<HuffmanRange>) -> (r: Option<HuffmanNode>)
    requires
        ranges@.len() > 0 ==> wf_ranges(ranges@),
        forall|i: int| 0 <= i < ranges@.len() ==> (#[trigger] ranges@[i].bit_length) <= 15,
    ensures
        ranges@.len() == 0 ==> r is None,
        ranges@.len() > 0 ==> r == spec_huffman_tree(ranges@),
        r matches Some(t) ==> t is Node,
{
    if ranges.len() == 0 {
        return None;
    }
    proof {
        reveal(spec_huffman_tree);
    }
    let mut max_bit_length: u32 = 0;
    let mut i: usize = 0;
    while i < ranges.len()
        invariant
            i <= ranges@.len(),
            max_bit_length == spec_max_bl(ranges@.subrange(0, i as int)),
        decreases ranges@.len() - i,
    {
        proof {
            assert(ranges@.subrange(0, i + 1).drop_last() =~= ranges@.subrange(0, i as int));
            assert(ranges@.subrange(0, i + 1).last() == ranges@[i as int]);
        }
        if ranges[i].bit_length > max_bit_length {
            max_bit_length = ranges[i].bit_length;
        }
        i += 1;
    }
    proof {
        assert(ranges@.subrange(0, ranges@.len() as int) =~= ranges@);
        lemma_max_bl_bound(ranges@);
    }

    let bl_count = count_bitlengths(ranges, max_bit_length as usize);
    let mut next_code = compute_first_codes(&bl_count, max_bit_length as usize);
    proof {
        assert(bl_count@ =~= spec_bl_counts(ranges@, spec_max_bl(ranges@) as int));
        assert(next_code@ =~= spec_first_codes(bl_count@));
    }
    let ghost first = next_code@;
    let table = compute_code_table(&mut next_code, ranges);
    proof {
        lemma_code_table_entries(first, ranges@, ranges@.last().end + 1, 15);
    }
    build_tree(&table)
}

/// The ranges of the fixed literal/length tree the standard prescribes.
pub open spec fn fixed_ranges() -> Seq<HuffmanRange> {
    seq![
        HuffmanRange { end: 143, bit_length: 8 },
        HuffmanRange { end: 255, bit_length: 9 },
        HuffmanRange { end: 279, bit_length: 7 },
        HuffmanRange { end: 287, bit_length: 8 },
    ]
}

/// Create the fixed literal/length Huffman tree: 288 symbols with the
/// lengths the standard fixes.
pub fn build_fixed_huffman_tree() -> (r: Option<HuffmanNode>)
    ensures
        r == spec_huffman_tree(fixed_ranges()),
        r matches Some(t) ==> t is Node,
{
    let mut ranges: Vec<HuffmanRange> = Vec::new();
    ranges.push(HuffmanRange { end: 143, bit_length: 8 });
    ranges.push(HuffmanRange { end: 255, bit_length: 9 });
    ranges.push(HuffmanRange { end: 279, bit_length: 7 });
    ranges.push(HuffmanRange { end: 287, bit_length: 8 });
    proof {
        assert(ranges@ =~= fixed_ranges());
    }
    build_huffman_tree(&ranges)
}

/// Group a per-symbol length table into ranges: adjacent symbols with
/// equal lengths share one range, whose `end` is the last symbol of the
/// run.
pub open spec fn ranges_of(lens: Seq<u32>) -> Seq<HuffmanRange>
    decreases lens.len(),
{
    if lens.len() == 0 {
        Seq::empty()
    } else if lens.len() == 1 {
        seq![HuffmanRange { end: 0, bit_length: lens[0] }]
    } else {
        let r = ranges_of(lens.drop_last());
        if lens.last() == lens[lens.len() - 2] {
            r.update(
                r.len() - 1,
                HuffmanRange { end: (lens.len() - 1) as u32, bit_length: lens.last() },
            )
        } else {
            r.push(HuffmanRange { end: (lens.len() - 1) as u32, bit_length: lens.last() })
        }
    }
}

/// The grouped ranges of a non-empty length table are well formed, end at
/// the last symbol, and carry only lengths the table holds.
pub proof fn lemma_ranges_of_wf(lens: Seq<u32>, bound: u32)
    requires
        1 <= lens.len() <= 0xffffffff,
        forall|i: int| 0 <= i < lens.len() ==> (#[trigger] lens[i]) <= bound,
    ensures
        wf_ranges(ranges_of(lens)),
        ranges_of(lens).last().end == lens.len() - 1,
        forall|i: int|
            0 <= i < ranges_of(lens).len() ==> (#[trigger] ranges_of(lens)[i].bit_length) <= bound,
    decreases lens.len(),
{
    if lens.len() == 1 {
    } else {
        lemma_ranges_of_wf(lens.drop_last(), bound);
        let dl = lens.drop_last();
        assert forall|i: int| 0 <= i < dl.len() implies (#[trigger] dl[i]) <= bound by {
            assert(dl[i] == lens[i]);
        }
        let r = ranges_of(lens.drop_last());
        let cur = ranges_of(lens);
        assert(r.last().end == lens.len() - 2);
        if lens.last() == lens[lens.len() - 2] {
            assert(cur == r.update(
                r.len() - 1,
                HuffmanRange { end: (lens.len() - 1) as u32, bit_length: lens.last() },
            ));
            assert forall|i: int, j: int|
                #![trigger cur[i].end, cur[j].end]
                0 <= i < j < cur.len() implies cur[i].end < cur[j].end by {
                if j < cur.len() - 1 {
                    assert(cur[i] == r[i] && cur[j] == r[j]);
                } else {
                    if i < cur.len() - 1 {
                        assert(cur[i] == r[i]);
                        assert(r[i].end <= r.last().end || i == r.len() - 1);
                    }
                }
            }
        } else {
            assert forall|i: int, j: int|
                #![trigger cur[i].end, cur[j].end]
                0 <= i < j < cur.len() implies cur[i].end < cur[j].end by {
                if j < cur.len() - 1 {
                    assert(cur[i] == r[i] && cur[j] == r[j]);
                } else {
                    if i < cur.len() - 1 {
                        assert(cur[i] == r[i]);
                    }
                }
            }
        }
    }
}

} // verus!
