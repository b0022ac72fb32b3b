//! The DEFLATE inflater: block dispatch, the dynamic block header with its
//! code-length alphabet, and the literal/length/distance symbol loop that
//! drives the output buffer.

use vstd::prelude::*;

use crate::cvec::{spec_copy_back, CVec};
use crate::gz_reader::{bits_value, lemma_bits_value_bound, lemma_stream_bit_one, stream_bit, GzBitReader};
use crate::huffman::{
    build_fixed_huffman_tree, build_huffman_tree, lemma_tree_decode_advances, ranges_of, spec_huffman_tree, tree_decode,
    HuffmanNode, HuffmanRange,
};

verus! {

/// The order in which the dynamic header stores the 19 code-length code
/// lengths.
pub open spec fn clen_offsets() -> Seq<usize> {
    seq![16usize, 17, 18, 0, 8, 7, 9, 6, 10, 5, 11, 4, 12, 3, 13, 2, 14, 1, 15]
}

fn make_clen_offsets() -> (r: Vec<usize>)
    ensures
        r@ == clen_offsets(),
        forall|j: int| 0 <= j < 19 ==> (#[trigger] r@[j]) < 19,
{
    let v: Vec<usize> = vec![16, 17, 18, 0, 8, 7, 9, 6, 10, 5, 11, 4, 12, 3, 13, 2, 14, 1, 15];
    proof {
        assert(v@ =~= clen_offsets());
    }
    v
}

/// The base lengths for literal/length symbols 265 through 284.
pub open spec fn length_addends() -> Seq<u32> {
    seq![11u32, 13, 15, 17, 19, 23, 27, 31, 35, 43, 51, 59, 67, 83, 99, 115, 131, 163, 195, 227]
}

fn make_length_addends() -> (r: Vec<u32>)
    ensures
        r@ == length_addends(),
{
    let v: Vec<u32> = vec![
        11, 13, 15, 17, 19, 23, 27, 31, 35, 43, 51, 59, 67, 83, 99, 115, 131, 163, 195, 227,
    ];
    proof {
        assert(v@ =~= length_addends());
    }
    v
}

/// The base distances for distance symbols 4 through 29.
pub open spec fn dist_addends() -> Seq<u32> {
    seq![
        4u32, 6, 8, 12, 16, 24, 32, 48, 64, 96, 128, 192, 256, 384, 512, 768, 1024, 1536, 2048,
        3072, 4096, 6144, 8192, 12288, 16384, 24576,
    ]
}

fn make_dist_addends() -> (r: Vec<u32>)
    ensures
        r@ == dist_addends(),
{
    let v: Vec<u32> = vec![
        4, 6, 8, 12, 16, 24, 32, 48, 64, 96, 128, 192, 256, 384, 512, 768, 1024, 1536, 2048, 3072,
        4096, 6144, 8192, 12288, 16384, 24576,
    ];
    proof {
        assert(v@ =~= dist_addends());
    }
    v
}

/// Decode the copy length for literal/length symbol `sym` (257 through
/// 285), reading the symbol's extra bits from position `k`.
pub open spec fn spec_length(sym: u32, data: Seq<u8>, k: int) -> Option<(u32, int)>
    recommends
        257 <= sym <= 285,
{
    if sym < 265 {
        Some((((sym - 254) as u32), k))
    } else if sym < 285 {
        let nbits = ((sym - 261) as u32) / 4;
        if k + nbits <= 8 * (data.len() as int) {
            Some(
                (
                    (((length_addends()[sym - 265] as int) + bits_value(data, k, nbits as int))
                        as u32),
                    k + nbits,
                ),
            )
        } else {
            None
        }
    } else {
        Some((258, k))
    }
}

/// Decode a distance symbol: five raw bits when no distance tree is in
/// play (the fixed-block convention), else a walk of the distance tree.
pub open spec fn spec_dist_sym(dist: Option<HuffmanNode>, data: Seq<u8>, k: int) -> Option<
    (u32, int),
> {
    match dist {
        None => if k + 5 <= 8 * (data.len() as int) {
            Some((bits_value(data, k, 5), k + 5))
        } else {
            None
        },
        Some(t) => tree_decode(t, data, k),
    }
}

/// Turn a distance symbol into a distance, reading its extra bits from
/// position `k`.  Symbols of thirty or more are invalid.
pub open spec fn spec_dist_value(dsym: u32, data: Seq<u8>, k: int) -> Option<(u32, int)> {
    if dsym <= 3 {
        Some((((dsym + 1) as u32), k))
    } else if dsym < 30 {
        let nbits = ((dsym - 2) as u32) / 2;
        if k + nbits <= 8 * (data.len() as int) {
            Some(
                (
                    (((dist_addends()[dsym - 4] as int) + bits_value(data, k, nbits as int)) as u32),
                    k + nbits,
                ),
            )
        } else {
            None
        }
    } else {
        None
    }
}

/// Decode literal/length symbols until the end-of-block code: literals are
/// appended, back-references are copied, and the result is the grown
/// output with the position after the end-of-block code.  `fuel` is the
/// number of bits the decode may consume; called with the number of bits
/// remaining in the payload it never runs out before the payload does.
#[verifier::opaque]
pub open spec fn spec_inflate_codes(
    data: Seq<u8>,
    k: int,
    lit: HuffmanNode,
    dist: Option<HuffmanNode>,
    out: Seq<u8>,
    fuel: int,
) -> Option<(Seq<u8>, int)>
    decreases fuel,
{
    match tree_decode(lit, data, k) {
        None => None,
        Some(p) => {
            let sym = p.0;
            let k1 = p.1;
            if sym < 256 {
                if k1 <= k || fuel < k1 - k {
                    None
                } else {
                    spec_inflate_codes(data, k1, lit, dist, out.push(sym as u8), fuel - (k1 - k))
                }
            } else if sym == 256 {
                Some((out, k1))
            } else if sym < 286 {
                match spec_length(sym, data, k1) {
                    None => None,
                    Some(pl) => match spec_dist_sym(dist, data, pl.1) {
                        None => None,
                        Some(pd) => match spec_dist_value(pd.0, data, pd.1) {
                            None => None,
                            Some(pv) => {
                                let d = pv.0;
                                let k3 = pv.1;
                                if 1 <= d && d <= out.len() {
                                    if k3 <= k || fuel < k3 - k {
                                        None
                                    } else {
                                        spec_inflate_codes(
                                            data,
                                            k3,
                                            lit,
                                            dist,
                                            spec_copy_back(out, d as int, pl.0 as int),
                                            fuel - (k3 - k),
                                        )
                                    }
                                } else {
                                    None
                                }
                            },
                        },
                    },
                }
            } else {
                None
            }
        },
    }
}

/// The code-length table of the dynamic header: nineteen lengths, the
/// first `count` of them read as three-bit fields and stored in the
/// permuted order, the rest zero.
pub open spec fn spec_clen_array(data: Seq<u8>, k14: int, count: int) -> Seq<u32>
    decreases count,
{
    if count <= 0 {
        Seq::new(19, |j: int| 0u32)
    } else {
        spec_clen_array(data, k14, count - 1).update(
            clen_offsets()[count - 1] as int,
            bits_value(data, k14 + 3 * (count - 1), 3),
        )
    }
}

/// The expanded code-length alphabet: decode symbols with the code-length
/// tree, where 0 through 15 are literal lengths and 16, 17, 18 expand into
/// repeats, until at least `target` entries exist.
pub open spec fn spec_read_alphabet(
    data: Seq<u8>,
    k: int,
    tree: HuffmanNode,
    target: int,
    acc: Seq<u32>,
) -> Option<(Seq<u32>, int)>
    decreases
            (if target - acc.len() >= 0 {
                target - acc.len()
            } else {
                0int
            }),
{
    if acc.len() >= target {
        Some((acc, k))
    } else {
        match tree_decode(tree, data, k) {
            None => None,
            Some(p) => {
                let code = p.0;
                let k1 = p.1;
                if code <= 15 {
                    spec_read_alphabet(data, k1, tree, target, acc.push(code))
                } else if code == 16 {
                    if acc.len() == 0 {
                        None
                    } else if k1 + 2 <= 8 * (data.len() as int) {
                        let rep = 3 + bits_value(data, k1, 2);
                        spec_read_alphabet(
                            data,
                            k1 + 2,
                            tree,
                            target,
                            acc + Seq::new(rep as nat, |j: int| acc.last()),
                        )
                    } else {
                        None
                    }
                } else if code == 17 {
                    if k1 + 3 <= 8 * (data.len() as int) {
                        let rep = 3 + bits_value(data, k1, 3);
                        spec_read_alphabet(
                            data,
                            k1 + 3,
                            tree,
                            target,
                            acc + Seq::new(rep as nat, |j: int| 0u32),
                        )
                    } else {
                        None
                    }
                } else if code == 18 {
                    if k1 + 7 <= 8 * (data.len() as int) {
                        let rep = 11 + bits_value(data, k1, 7);
                        spec_read_alphabet(
                            data,
                            k1 + 7,
                            tree,
                            target,
                            acc + Seq::new(rep as nat, |j: int| 0u32),
                        )
                    } else {
                        None
                    }
                } else {
                    None
                }
            },
        }
    }
}

/// The dynamic block header: HLIT, HDIST and HCLEN, the code-length tree,
/// the expanded alphabet, and from its two parts the literal/length and
/// distance trees.  Returns the trees and the position after the header.
#[verifier::opaque]
pub open spec fn spec_dyn_header(data: Seq<u8>, k: int) -> Option<(HuffmanNode, HuffmanNode, int)> {
    if k + 14 > 8 * (data.len() as int) {
        None
    } else {
        let hlit = bits_value(data, k, 5) as int;
        let hdist = bits_value(data, k + 5, 5) as int;
        let hclen = bits_value(data, k + 10, 4) as int;
        let k14 = k + 14;
        if k14 + 3 * (hclen + 4) > 8 * (data.len() as int) {
            None
        } else {
            let clens = spec_clen_array(data, k14, hclen + 4);
            match spec_huffman_tree(ranges_of(clens)) {
                None => None,
                Some(clen_tree) => {
                    match spec_read_alphabet(
                        data,
                        k14 + 3 * (hclen + 4),
                        clen_tree,
                        hlit + hdist + 258,
                        Seq::empty(),
                    ) {
                        None => None,
                        Some(pa) => {
                            let alphabet = pa.0;
                            let k2 = pa.1;
                            let lit = spec_huffman_tree(
                                ranges_of(alphabet.subrange(0, hlit + 257)),
                            );
                            let dst = spec_huffman_tree(
                                ranges_of(alphabet.subrange(hlit + 257, hlit + hdist + 258)),
                            );
                            match lit {
                                None => None,
                                Some(lt) => match dst {
                                    None => None,
                                    Some(dt) => Some((lt, dt, k2)),
                                },
                            }
                        },
                    }
                },
            }
        }
    }
}

/// The fixed literal/length tree.
pub open spec fn fixed_tree() -> Option<HuffmanNode> {
    spec_huffman_tree(crate::huffman::fixed_ranges())
}

/// Run the DEFLATE block loop from bit position `k`: read BFINAL and
/// BTYPE, inflate the block's codes (stored and reserved block types
/// fail), and continue with the next block until a final block finishes.
pub open spec fn spec_inflate_blocks(data: Seq<u8>, k: int, out: Seq<u8>, fuel: int) -> Option<
    (Seq<u8>, int),
>
    decreases fuel,
{
    if k + 3 > 8 * (data.len() as int) {
        None
    } else {
        let bfinal = bits_value(data, k, 1);
        let btype = bits_value(data, k + 1, 2);
        let body = if btype == 1 {
            match fixed_tree() {
                None => None,
                Some(ft) => spec_inflate_codes(data, k + 3, ft, None, out, fuel - 3),
            }
        } else if btype == 2 {
            match spec_dyn_header(data, k + 3) {
                None => None,
                Some(h) => spec_inflate_codes(
                    data,
                    h.2,
                    h.0,
                    Some(h.1),
                    out,
                    fuel - (h.2 - k),
                ),
            }
        } else {
            None
        };
        match body {
            None => None,
            Some(p) => {
                if bfinal == 1 {
                    Some(p)
                } else {
                    if p.1 <= k || fuel < p.1 - k {
                        None
                    } else {
                        spec_inflate_blocks(data, p.1, p.0, fuel - (p.1 - k))
                    }
                }
            },
        }
    }
}

/// The optional distance tree, as a value.
pub open spec fn deref_opt(d: Option<&HuffmanNode>) -> Option<HuffmanNode> {
    match d {
        None => None,
        Some(t) => Some(*t),
    }
}

/// Inflate the data segment based on the given Huffman trees; decoded
/// bytes accumulate in `out`.  Success exactly when the bitstream decodes
/// to the end-of-block code with every symbol and back-reference valid;
/// then `out` holds what the spec-level decode prescribes.
#[verifier::rlimit(60)]
pub fn inflate_huffman_codes(
    stream: &mut GzBitReader,
    literals_root: &HuffmanNode,
    distances_root: Option<&HuffmanNode>,
    out: &mut CVec<u8>,
) -> (r: Option<()>)
    requires
        old(stream).wf(),
        (*literals_root) is Node,
    ensures
        final(stream).wf(),
        final(stream).bytes() == old(stream).bytes(),
        final(stream).consumed() >= old(stream).consumed(),
        match spec_inflate_codes(
            old(stream).bytes(),
            old(stream).consumed(),
            *literals_root,
            deref_opt(distances_root),
            old(out)@,
            old(stream).total_bits() - old(stream).consumed(),
        ) {
            Some(p) => r is Some && final(out)@ == p.0 && final(stream).consumed() == p.1,
            None => r is None,
        },
{
    let ghost data = old(stream).bytes();
    let ghost k0 = old(stream).consumed();
    let ghost out0 = old(out)@;
    let ghost dspec = deref_opt(distances_root);
    let length_addend = make_length_addends();
    let dist_addend = make_dist_addends();
    proof {
        reveal(spec_inflate_codes);
        old(stream).lemma_consumed_in_range();
    }
    loop
        invariant
            data == old(stream).bytes(),
            k0 == old(stream).consumed(),
            out0 == old(out)@,
            dspec == deref_opt(distances_root),
            stream.wf(),
            stream.bytes() == data,
            stream.consumed() >= k0,
            (*literals_root) is Node,
            length_addend@ == length_addends(),
            dist_addend@ == dist_addends(),
            spec_inflate_codes(data, k0, *literals_root, dspec, out0, 8 * (data.len() as int) - k0)
                == spec_inflate_codes(
                data,
                stream.consumed(),
                *literals_root,
                dspec,
                out@,
                8 * (data.len() as int) - stream.consumed(),
            ),
        decreases 8 * (data.len() as int) - stream.consumed(),
    {
        let ghost k = stream.consumed();
        let ghost cur_out = out@;
        proof {
            reveal(spec_inflate_codes);
            stream.lemma_consumed_in_range();
        }
        let code = match literals_root.read(stream) {
            Some(c) => c,
            None => {
                return None;
            },
        };
        proof {
            lemma_tree_decode_advances(*literals_root, data, k);
        }
        if code < 256 {
            let _ = out.push(code as u8);
        } else if code == 256 {
            return Some(());
        } else if code < 286 {
            let ghost k1 = stream.consumed();
            let length: u32 = if code < 265 {
                code - 254
            } else if code < 285 {
                let nbits = (code - 261) / 4;
                let extra = match stream.read_bits(nbits) {
                    Some(e) => e,
                    None => {
                        return None;
                    },
                };
                let widened: u64 = (length_addend[(code - 265) as usize] as u64) + (extra as u64);
                widened as u32
            } else {
                258
            };
            let ghost kl = stream.consumed();
            proof {
                assert(spec_length(code, data, k1) == Some((length, kl)));
            }
            let dsym = match distances_root {
                None => {
                    match stream.read_bits(5) {
                        Some(d) => d,
                        None => {
                            return None;
                        },
                    }
                },
                Some(distance_tree) => {
                    match distance_tree.read(stream) {
                        Some(d) => d,
                        None => {
                            return None;
                        },
                    }
                },
            };
            proof {
                if distances_root is Some {
                    lemma_tree_decode_advances(*distances_root.unwrap(), data, kl);
                }
            }
            let ghost k2 = stream.consumed();
            let dist: u32 = if dsym <= 3 {
                dsym + 1
            } else if dsym < 30 {
                let nbits_d = (dsym - 2) / 2;
                let extra_d = match stream.read_bits(nbits_d) {
                    Some(e) => e,
                    None => {
                        return None;
                    },
                };
                let widened_d: u64 = (dist_addend[(dsym - 4) as usize] as u64) + (extra_d as u64);
                widened_d as u32
            } else {
                return None;
            };
            let ghost k3 = stream.consumed();
            proof {
                assert(spec_dist_value(dsym, data, k2) == Some((dist, k3)));
            }
            if dist == 0 || (dist as usize) > out.len() {
                return None;
            }
            out.copy_back_pointer(dist as usize, length as usize);
            proof {
                assert(out@ == spec_copy_back(cur_out, dist as int, length as int));
            }
        } else {
            return None;
        }
    }
}

/// Group the slice `start..end` of a length table into Huffman ranges,
/// one per run of equal lengths, with ends rebased to the slice.
fn ranges_of_lengths(lens: &Vec<u32>, start: usize, end: usize) -> (r: Vec<HuffmanRange>)
    requires
        start < end <= lens@.len(),
        end - start <= 0xffffffff,
    ensures
        r@ == ranges_of(lens@.subrange(start as int, end as int)),
{
    let mut ranges: Vec<HuffmanRange> = Vec::new();
    let mut range = HuffmanRange { end: 0, bit_length: lens[start] };
    proof {
        let sub = lens@.subrange(start as int, start + 1);
        assert(sub.len() == 1 && sub[0] == lens@[start as int]);
        assert(ranges@.push(range) =~= ranges_of(sub));
    }
    let mut i: usize = start + 1;
    while i < end
        invariant
            start < end <= lens@.len(),
            end - start <= 0xffffffff,
            start + 1 <= i <= end,
            range.end == i - start - 1,
            ranges@.push(range) == ranges_of(lens@.subrange(start as int, i as int)),
        decreases end - i,
    {
        proof {
            let sub0 = lens@.subrange(start as int, i as int);
            let sub1 = lens@.subrange(start as int, i + 1);
            assert(sub1.drop_last() =~= sub0);
            assert(sub1.last() == lens@[i as int]);
            assert(sub1[sub1.len() - 2] == lens@[i - 1]);
            let newrange = HuffmanRange {
                end: (i - start) as u32,
                bit_length: lens@[i as int],
            };
            if lens@[i as int] == lens@[i - 1] {
                assert(ranges_of(sub1) =~= ranges@.push(newrange));
            } else {
                assert(ranges_of(sub1) =~= ranges@.push(range).push(newrange));
            }
        }
        if lens[i] != lens[i - 1] {
            ranges.push(range);
        }
        range = HuffmanRange { end: (i - start) as u32, bit_length: lens[i] };
        i += 1;
    }
    ranges.push(range);
    ranges
}

/// Read a dynamic block header from the stream: HLIT, HDIST and HCLEN,
/// the code-length tree, the expanded alphabet, and from it the
/// literal/length tree and the distance tree, in that order.
pub fn read_huffman_tree(stream: &mut GzBitReader) -> (r: Option<(HuffmanNode, HuffmanNode)>)
    requires
        old(stream).wf(),
    ensures
        final(stream).wf(),
        final(stream).bytes() == old(stream).bytes(),
        final(stream).consumed() >= old(stream).consumed(),
        match spec_dyn_header(old(stream).bytes(), old(stream).consumed()) {
            Some(h) => (r matches Some(pair) && pair.0 == h.0 && pair.1 == h.1
                && final(stream).consumed() == h.2 && h.0 is Node && h.1 is Node),
            None => r is None,
        },
{
    let ghost data = old(stream).bytes();
    let ghost c0 = old(stream).consumed();
    proof {
        reveal(spec_dyn_header);
        old(stream).lemma_consumed_in_range();
    }
    let hlit = match stream.read_bits(5) {
        Some(v) => v,
        None => {
            return None;
        },
    };
    let hdist = match stream.read_bits(5) {
        Some(v) => v,
        None => {
            return None;
        },
    };
    let hclen = match stream.read_bits(4) {
        Some(v) => v,
        None => {
            return None;
        },
    };
    proof {
        lemma_bits_value_bound(data, c0, 5);
        lemma_bits_value_bound(data, c0 + 5, 5);
        lemma_bits_value_bound(data, c0 + 10, 4);
        assert((1u32 << 5u32) == 32 && (1u32 << 4u32) == 16) by (bit_vector);
    }
    let ghost k14 = c0 + 14;

    let offsets = make_clen_offsets();
    let mut code_lengths: Vec<u32> = Vec::new();
    let mut z: usize = 0;
    while z < 19
        invariant
            z <= 19,
            code_lengths@.len() == z,
            forall|t: int| 0 <= t < z ==> #[trigger] code_lengths@[t] == 0,
        decreases 19 - z,
    {
        code_lengths.push(0);
        z += 1;
    }
    proof {
        assert(code_lengths@ =~= spec_clen_array(data, k14, 0));
    }
    let count: u32 = hclen + 4;
    let mut i: u32 = 0;
    while i < count
        invariant
            data == old(stream).bytes(),
            c0 == old(stream).consumed(),
            k14 == c0 + 14,
            count == bits_value(data, c0 + 10, 4) + 4,
            stream.wf(),
            stream.bytes() == data,
            i <= count,
            count <= 19,
            offsets@ == clen_offsets(),
            forall|j: int| 0 <= j < 19 ==> (#[trigger] offsets@[j]) < 19,
            stream.consumed() == k14 + 3 * i,
            k14 + 3 * count <= 8 * (data.len() as int) || i < count,
            code_lengths@.len() == 19,
            code_lengths@ == spec_clen_array(data, k14, i as int),
            forall|t: int| 0 <= t < 19 ==> (#[trigger] code_lengths@[t]) <= 7,
        decreases count - i,
    {
        proof {
            reveal(spec_dyn_header);
        }
        let b = match stream.read_bits(3) {
            Some(v) => v,
            None => {
                return None;
            },
        };
        proof {
            lemma_bits_value_bound(data, k14 + 3 * i, 3);
            assert((1u32 << 3u32) == 8) by (bit_vector);
        }
        let idx = offsets[i as usize];
        code_lengths.set(idx, b);
        i += 1;
    }

    let clen_ranges = ranges_of_lengths(&code_lengths, 0, 19);
    proof {
        assert(code_lengths@.subrange(0, 19) =~= code_lengths@);
        crate::huffman::lemma_ranges_of_wf(code_lengths@, 15);
    }
    let code_lengths_root = match build_huffman_tree(&clen_ranges) {
        Some(t) => t,
        None => {
            return None;
        },
    };

    let target: u32 = hlit + hdist + 258;
    let ghost ka = stream.consumed();
    let mut alphabet: Vec<u32> = Vec::new();
    while alphabet.len() < target as usize
        invariant
            data == old(stream).bytes(),
            c0 == old(stream).consumed(),
            k14 == c0 + 14,
            c0 + 14 <= 8 * (data.len() as int),
            hlit == bits_value(data, c0, 5),
            hdist == bits_value(data, c0 + 5, 5),
            hclen == bits_value(data, c0 + 10, 4),
            count == hclen + 4,
            k14 + 3 * count <= 8 * (data.len() as int),
            code_lengths@ == spec_clen_array(data, k14, count as int),
            spec_huffman_tree(ranges_of(code_lengths@)) == Some(code_lengths_root),
            ka == k14 + 3 * count,
            target == hlit + hdist + 258,
            hlit < 32 && hdist < 32 && hclen < 16,
            stream.wf(),
            stream.bytes() == data,
            stream.consumed() >= c0,
            code_lengths_root is Node,
            target <= 580,
            alphabet@.len() <= target + 138,
            forall|t: int| 0 <= t < alphabet@.len() ==> (#[trigger] alphabet@[t]) <= 15,
            spec_read_alphabet(data, ka, code_lengths_root, target as int, Seq::empty())
                == spec_read_alphabet(
                data,
                stream.consumed(),
                code_lengths_root,
                target as int,
                alphabet@,
            ),
        decreases (if target as int - alphabet@.len() >= 0 {
            target as int - alphabet@.len()
        } else {
            0int
        }),
    {
        let ghost kk = stream.consumed();
        let ghost acc = alphabet@;
        proof {
            reveal(spec_dyn_header);
            stream.lemma_consumed_in_range();
        }
        let code = match code_lengths_root.read(stream) {
            Some(c) => c,
            None => {
                return None;
            },
        };
        proof {
            lemma_tree_decode_advances(code_lengths_root, data, kk);
        }
        if code < 16 {
            alphabet.push(code);
        } else if code == 16 {
            if alphabet.len() == 0 {
                return None;
            }
            let extra = match stream.read_bits(2) {
                Some(v) => v,
                None => {
                    return None;
                },
            };
            proof {
                lemma_bits_value_bound(data, stream.consumed() - 2, 2);
                assert((1u32 << 2u32) == 4) by (bit_vector);
            }
            let rep = extra + 3;
            let prev = alphabet[alphabet.len() - 1];
            let mut j: u32 = 0;
            while j < rep
                invariant
                    j <= rep,
                    rep <= 6,
                    acc.len() >= 1,
                    prev == acc.last(),
                    alphabet@ == acc + Seq::new(j as nat, |q: int| prev),
                decreases rep - j,
            {
                proof {
                    assert(alphabet@.push(prev) =~= acc + Seq::new((j + 1) as nat, |q: int| prev));
                }
                alphabet.push(prev);
                j += 1;
            }
        } else if code == 17 || code == 18 {
            let nbits: u32 = if code == 17 {
                3
            } else {
                7
            };
            let base: u32 = if code == 17 {
                3
            } else {
                11
            };
            let extra = match stream.read_bits(nbits) {
                Some(v) => v,
                None => {
                    return None;
                },
            };
            proof {
                lemma_bits_value_bound(data, stream.consumed() - nbits, nbits as int);
                assert((1u32 << 3u32) == 8 && (1u32 << 7u32) == 128) by (bit_vector);
            }
            let rep = extra + base;
            let mut j: u32 = 0;
            while j < rep
                invariant
                    j <= rep,
                    rep <= 138,
                    alphabet@ == acc + Seq::new(j as nat, |q: int| 0u32),
                decreases rep - j,
            {
                proof {
                    assert(alphabet@.push(0u32) =~= acc + Seq::new((j + 1) as nat, |q: int| 0u32));
                }
                alphabet.push(0);
                j += 1;
            }
        } else {
            return None;
        }
    }

    let lit_count = (hlit + 257) as usize;
    let total_count = (hlit + hdist + 258) as usize;
    let literals_ranges = ranges_of_lengths(&alphabet, 0, lit_count);
    let distances_ranges = ranges_of_lengths(&alphabet, lit_count, total_count);
    proof {
        let lit_slice = alphabet@.subrange(0, lit_count as int);
        let dist_slice = alphabet@.subrange(lit_count as int, total_count as int);
        assert(forall|t: int| 0 <= t < lit_slice.len() ==> (#[trigger] lit_slice[t]) <= 15);
        assert(forall|t: int| 0 <= t < dist_slice.len() ==> (#[trigger] dist_slice[t]) <= 15);
        crate::huffman::lemma_ranges_of_wf(lit_slice, 15);
        crate::huffman::lemma_ranges_of_wf(dist_slice, 15);
    }
    let literals_root = match build_huffman_tree(&literals_ranges) {
        Some(t) => t,
        None => {
            return None;
        },
    };
    let distances_root = match build_huffman_tree(&distances_ranges) {
        Some(t) => t,
        None => {
            return None;
        },
    };
    Some((literals_root, distances_root))
}

/// Inflate the compressed stream into `out`; the stream must stand at the
/// head of the first block.  Success exactly when every block decodes,
/// and `out` then holds the bytes the spec-level block loop prescribes.
#[verifier::rlimit(100)]
pub fn inflate(stream: &mut GzBitReader, out: &mut CVec<u8>) -> (r: Option<()>)
    requires
        old(stream).wf(),
    ensures
        final(stream).wf(),
        final(stream).bytes() == old(stream).bytes(),
        match spec_inflate_blocks(
            old(stream).bytes(),
            old(stream).consumed(),
            old(out)@,
            old(stream).total_bits() - old(stream).consumed(),
        ) {
            Some(p) => r is Some && final(out)@ == p.0 && final(stream).consumed() == p.1,
            None => r is None,
        },
{
    let ghost data = old(stream).bytes();
    let ghost k0 = old(stream).consumed();
    let ghost out0 = old(out)@;
    let mut last_block: u32 = 0;
    while last_block == 0
        invariant
            data == old(stream).bytes(),
            k0 == old(stream).consumed(),
            out0 == old(out)@,
            stream.wf(),
            stream.bytes() == data,
            last_block == 0 ==> spec_inflate_blocks(data, k0, out0, 8 * (data.len() as int) - k0)
                == spec_inflate_blocks(
                data,
                stream.consumed(),
                out@,
                8 * (data.len() as int) - stream.consumed(),
            ),
            last_block != 0 ==> spec_inflate_blocks(data, k0, out0, 8 * (data.len() as int) - k0)
                == Some((out@, stream.consumed())),
        decreases 8 * (data.len() as int) - stream.consumed(),
    {
        let ghost k = stream.consumed();
        let ghost cur = out@;
        proof {
            stream.lemma_consumed_in_range();
        }
        last_block = match stream.next_bit() {
            Some(b) => b,
            None => {
                return None;
            },
        };
        let block_format = match stream.read_bits(2) {
            Some(v) => v,
            None => {
                return None;
            },
        };
        proof {
            lemma_stream_bit_one(data, k);
            let b = stream_bit(data, k);
            assert(0u32 | (b << 0u32) == b) by (bit_vector);
            assert(bits_value(data, k, 1) == bits_value(data, k, 0) | (stream_bit(data, k) << (
            0u32)));
            assert(bits_value(data, k, 1) == b);
        }
        if block_format == 0x01 {
            let ft = match build_fixed_huffman_tree() {
                Some(t) => t,
                None => {
                    return None;
                },
            };
            match inflate_huffman_codes(stream, &ft, None, out) {
                Some(_) => {},
                None => {
                    return None;
                },
            }
        } else if block_format == 0x02 {
            let trees = match read_huffman_tree(stream) {
                Some(p) => p,
                None => {
                    return None;
                },
            };
            let literals_tree = trees.0;
            let distances_tree = trees.1;
            match inflate_huffman_codes(stream, &literals_tree, Some(&distances_tree), out) {
                Some(_) => {},
                None => {
                    return None;
                },
            }
        } else {
            return None;
        }
        proof {
            stream.lemma_consumed_in_range();
        }
    }
    Some(())
}

} // verus!
