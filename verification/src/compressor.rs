//! The self-describing container format and the compress / uncompress
//! entry points.
//!
//! Container layout (all integers big-endian, fixed width):
//!
//! ```text
//! [8 bytes] tree byte length
//! [tree byte length bytes] serialized tree, depth-first pre-order:
//!     leaf:     [1 byte tag = 0][8 bytes weight][1 byte symbol]
//!     internal: [1 byte tag = 1][8 bytes weight][left subtree][right subtree]
//! [8 bytes] bit length of the encoded data
//! [ceil(bit length / 8) bytes] packed bits, MSB-first, zero-padded
//! ```
//!
//! An empty input produces the container with tree byte length 0 and bit
//! length 0: sixteen zero bytes and nothing else.

use vstd::prelude::*;

verus! {

use crate::CompressError;
use crate::bits::be_u64_at;
use crate::bits::byte_count;
use crate::bits::byte_count_exec;
use crate::bits::bytes_val;
use crate::bits::lemma_be_rec_len;
use crate::bits::lemma_bytes_val_be_rec;
use crate::bits::lemma_bytes_val_bound;
use crate::bits::lemma_pow256_bounds;
use crate::bits::lemma_unpack_pack;
use crate::bits::pack_bits;
use crate::bits::pack_spec;
use crate::bits::u64_be_bytes;
use crate::bits::u64_to_be_vec;
use crate::bits::unpack_bits;
use crate::bits::unpack_spec;
use crate::frequency_table::FrequencyTable;
use crate::frequency_table::counts_spec;
use crate::frequency_table::lemma_count_occ_le_len;
use crate::frequency_table::lemma_count_occ_positive;
use crate::frequency_table::lemma_counts_spec_sum;
use crate::huffman_tree::HuffmanNode;
use crate::huffman_tree::HuffmanTree;
use crate::huffman_tree::decode_all;
use crate::huffman_tree::encode_seq;
use crate::huffman_tree::forest_has_sym;
use crate::huffman_tree::initial_leaves;
use crate::huffman_tree::lemma_decode_encode;
use crate::huffman_tree::lemma_leaves_props;
use crate::huffman_tree::lemma_merge_props;
use crate::huffman_tree::spec_build;

// ------------------------------------------------------------------
// Tree block
// ------------------------------------------------------------------

/// Byte encoding of one node, depth-first pre-order.
pub open spec fn ser_node(n: HuffmanNode) -> Seq<u8>
    decreases n,
{
    match n {
        HuffmanNode::Leaf { weight, element } => seq![0u8] + u64_be_bytes(weight) + seq![element],
        HuffmanNode::Node { weight, left, right } => seq![1u8] + u64_be_bytes(weight) + ser_node(
            *left,
        ) + ser_node(*right),
    }
}

pub proof fn lemma_ser_node_len(n: HuffmanNode)
    ensures
        10 <= ser_node(n).len() <= 19 * n.size(),
    decreases n,
{
    match n {
        HuffmanNode::Leaf { weight, .. } => {
            lemma_be_rec_len(weight as nat, 8);
        },
        HuffmanNode::Node { weight, left, right } => {
            lemma_be_rec_len(weight as nat, 8);
            lemma_ser_node_len(*left);
            lemma_ser_node_len(*right);
        },
    }
}

/// Reads one serialized node starting at `pos`: `None` on any malformed
/// byte, otherwise the node and the position just past it.
pub open spec fn spec_parse_node(s: Seq<u8>, pos: int) -> Option<(HuffmanNode, int)>
    decreases s.len() - pos,
{
    if pos < 0 || pos >= s.len() {
        None
    } else {
        let tag = s[pos];
        if tag == 0 {
            if pos + 10 <= s.len() {
                Some(
                    (
                        HuffmanNode::Leaf {
                            weight: bytes_val(s.subrange(pos + 1, pos + 9)) as u64,
                            element: s[pos + 9],
                        },
                        pos + 10,
                    ),
                )
            } else {
                None
            }
        } else if tag == 1 {
            if pos + 9 <= s.len() {
                match spec_parse_node(s, pos + 9) {
                    Some((l, p1)) => if pos + 9 < p1 && p1 <= s.len() {
                        match spec_parse_node(s, p1) {
                            Some((r, p2)) => Some(
                                (
                                    HuffmanNode::Node {
                                        weight: bytes_val(s.subrange(pos + 1, pos + 9)) as u64,
                                        left: Box::new(l),
                                        right: Box::new(r),
                                    },
                                    p2,
                                ),
                            ),
                            None => None,
                        }
                    } else {
                        None
                    },
                    None => None,
                }
            } else {
                None
            }
        } else {
            None
        }
    }
}

proof fn lemma_parse_bounds(s: Seq<u8>, pos: int)
    requires
        0 <= pos,
    ensures
        match spec_parse_node(s, pos) {
            Some(pr) => pos + 10 <= pr.1 <= s.len(),
            None => true,
        },
    decreases s.len() - pos,
{
    if pos < s.len() && s[pos] == 1 && pos + 9 <= s.len() {
        lemma_parse_bounds(s, pos + 9);
        match spec_parse_node(s, pos + 9) {
            Some((l, p1)) => {
                if pos + 9 < p1 && p1 <= s.len() {
                    lemma_parse_bounds(s, p1);
                }
            },
            None => {},
        }
    }
}

/// Parsing is complete: wherever the bytes of `ser_node(t)` sit, the parser
/// reads back exactly `t` and stops just past them.
pub proof fn lemma_parse_ser(t: HuffmanNode, s: Seq<u8>, pos: int)
    requires
        0 <= pos,
        pos + ser_node(t).len() <= s.len(),
        s.subrange(pos, pos + ser_node(t).len() as int) == ser_node(t),
    ensures
        spec_parse_node(s, pos) == Some((t, pos + ser_node(t).len() as int)),
    decreases t,
{
    let ser = ser_node(t);
    lemma_ser_node_len(t);
    assert forall|i: int| 0 <= i < ser.len() implies s[pos + i] == ser[i] by {
        assert(s.subrange(pos, pos + ser.len() as int)[i] == s[pos + i]);
    }
    match t {
        HuffmanNode::Leaf { weight, element } => {
            lemma_be_rec_len(weight as nat, 8);
            assert(ser[0] == 0u8);
            assert(s[pos + 0] == ser[0]);
            assert(s[pos] == 0u8);
            assert(s.subrange(pos + 1, pos + 9) =~= u64_be_bytes(weight)) by {
                assert forall|i: int| 0 <= i < 8 implies s.subrange(pos + 1, pos + 9)[i]
                    == u64_be_bytes(weight)[i] by {
                    assert(ser[1 + i] == u64_be_bytes(weight)[i]);
                    assert(s[pos + (1 + i)] == ser[1 + i]);
                }
            }
            lemma_pow256_bounds();
            lemma_bytes_val_be_rec(weight as nat, 8);
            assert(ser[9] == element);
            assert(s[pos + 9] == ser[9]);
        },
        HuffmanNode::Node { weight, left, right } => {
            lemma_be_rec_len(weight as nat, 8);
            let serl = ser_node(*left);
            let serr = ser_node(*right);
            lemma_ser_node_len(*left);
            lemma_ser_node_len(*right);
            assert(ser.len() == 9 + serl.len() + serr.len());
            assert(ser[0] == 1u8);
            assert(s[pos + 0] == ser[0]);
            assert(s[pos] == 1u8);
            assert(s.subrange(pos + 1, pos + 9) =~= u64_be_bytes(weight)) by {
                assert forall|i: int| 0 <= i < 8 implies s.subrange(pos + 1, pos + 9)[i]
                    == u64_be_bytes(weight)[i] by {
                    assert(ser[1 + i] == u64_be_bytes(weight)[i]);
                    assert(s[pos + (1 + i)] == ser[1 + i]);
                }
            }
            lemma_pow256_bounds();
            lemma_bytes_val_be_rec(weight as nat, 8);
            let p1 = pos + 9 + serl.len() as int;
            assert(s.subrange(pos + 9, p1) =~= serl) by {
                assert forall|i: int| 0 <= i < serl.len() implies s.subrange(pos + 9, p1)[i]
                    == serl[i] by {
                    assert(ser[9 + i] == serl[i]);
                    assert(s[pos + (9 + i)] == ser[9 + i]);
                }
            }
            lemma_parse_ser(*left, s, pos + 9);
            let p2 = p1 + serr.len() as int;
            assert(s.subrange(p1, p2) =~= serr) by {
                assert forall|i: int| 0 <= i < serr.len() implies s.subrange(p1, p2)[i]
                    == serr[i] by {
                    assert(ser[9 + serl.len() + i] == serr[i]);
                    assert(s[pos + (9 + serl.len() + i)] == ser[9 + serl.len() + i]);
                }
            }
            lemma_parse_ser(*right, s, p1);
        },
    }
}

/// Appends the byte encoding of `n` to `out`.
fn serialize_node(n: &HuffmanNode, out: &mut Vec<u8>)
    ensures
        final(out)@ == old(out)@ + ser_node(*n),
    decreases *n,
{
    let ghost pre = out@;
    match n {
        HuffmanNode::Leaf { weight, element } => {
            out.push(0);
            let mut wb = u64_to_be_vec(*weight);
            out.append(&mut wb);
            out.push(*element);
            proof {
                assert(out@ =~= pre + (seq![0u8] + u64_be_bytes(*weight) + seq![*element]));
            }
        },
        HuffmanNode::Node { weight, left, right } => {
            out.push(1);
            let mut wb = u64_to_be_vec(*weight);
            out.append(&mut wb);
            serialize_node(left, out);
            serialize_node(right, out);
            proof {
                assert(out@ =~= pre + (seq![1u8] + u64_be_bytes(*weight) + ser_node(**left)
                    + ser_node(**right)));
            }
        },
    }
}

/// Reads one serialized node starting at `pos`.
fn parse_node(bytes: &Vec<u8>, pos: usize) -> (r: Result<(HuffmanNode, usize), CompressError>)
    ensures
        match r {
            Ok(pr) => spec_parse_node(bytes@, pos as int) == Some((pr.0, pr.1 as int)),
            Err(e) => spec_parse_node(bytes@, pos as int) is None && e
                == CompressError::CorruptContainer,
        },
    decreases bytes@.len() - pos,
{
    let blen = bytes.len();
    if pos >= blen {
        return Err(CompressError::CorruptContainer);
    }
    let tag = bytes[pos];
    if tag == 0 {
        if blen - pos >= 10 {
            let weight = be_u64_at(bytes, pos + 1);
            proof {
                lemma_bytes_val_bound(bytes@.subrange(pos as int + 1, pos as int + 9));
                lemma_pow256_bounds();
            }
            let element = bytes[pos + 9];
            Ok((HuffmanNode::Leaf { weight, element }, pos + 10))
        } else {
            Err(CompressError::CorruptContainer)
        }
    } else if tag == 1 {
        if blen - pos >= 9 {
            let weight = be_u64_at(bytes, pos + 1);
            proof {
                lemma_bytes_val_bound(bytes@.subrange(pos as int + 1, pos as int + 9));
                lemma_pow256_bounds();
            }
            let (l, p1) = match parse_node(bytes, pos + 9) {
                Ok(x) => x,
                Err(e) => {
                    return Err(e);
                },
            };
            proof {
                lemma_parse_bounds(bytes@, pos as int + 9);
            }
            let (r0, p2) = match parse_node(bytes, p1) {
                Ok(x) => x,
                Err(e) => {
                    return Err(e);
                },
            };
            Ok((HuffmanNode::Node { weight, left: Box::new(l), right: Box::new(r0) }, p2))
        } else {
            Err(CompressError::CorruptContainer)
        }
    } else {
        Err(CompressError::CorruptContainer)
    }
}

// ------------------------------------------------------------------
// Whole containers
// ------------------------------------------------------------------

/// The container holding a tree and an encoded bit sequence.
pub open spec fn spec_container(t: HuffmanNode, bits: Seq<bool>) -> Seq<u8> {
    u64_be_bytes(ser_node(t).len() as u64) + ser_node(t) + u64_be_bytes(bits.len() as u64)
        + pack_spec(bits)
}

/// What `compress` returns: the empty container for empty input, otherwise
/// the container of the input's Huffman tree and encoded bits.
pub open spec fn spec_compress(v: Seq<u8>) -> Seq<u8> {
    if v.len() == 0 {
        u64_be_bytes(0) + u64_be_bytes(0)
    } else {
        spec_container(spec_build(counts_spec(v)), encode_seq(spec_build(counts_spec(v)), v))
    }
}

/// What `uncompress` recovers: `None` exactly on malformed containers.  A
/// container is well formed when every declared length matches the bytes
/// that are present: the tree block parses and fills its declared length,
/// and the packed data holds exactly the declared number of bits (a bit
/// count beyond the address space is rejected as malformed, since its
/// output could not be held).
pub open spec fn spec_uncompress(c: Seq<u8>) -> Option<Seq<u8>> {
    if c.len() < 8 {
        None
    } else {
        let tree_len = bytes_val(c.subrange(0, 8)) as int;
        if tree_len == 0 {
            if c.len() == 16 && bytes_val(c.subrange(8, 16)) == 0 {
                Some(Seq::empty())
            } else {
                None
            }
        } else if 8 + tree_len > c.len() {
            None
        } else {
            match spec_parse_node(c, 8) {
                Some((t, end)) => if end == 8 + tree_len && end + 8 <= c.len() {
                    let nbits = bytes_val(c.subrange(end, end + 8));
                    if c.len() - (end + 8) == byte_count(nbits) && nbits <= usize::MAX {
                        Some(
                            decode_all(t, unpack_spec(c.subrange(end + 8, c.len() as int), nbits)),
                        )
                    } else {
                        None
                    }
                } else {
                    None
                },
                None => None,
            }
        }
    }
}

/// Reading back the container of any tree and bit sequence recovers what
/// decoding those bits under that tree yields.
pub proof fn lemma_container_round_trip(t: HuffmanNode, bits: Seq<bool>)
    requires
        ser_node(t).len() <= u64::MAX,
        bits.len() <= usize::MAX,
    ensures
        spec_uncompress(spec_container(t, bits)) == Some(decode_all(t, bits)),
{
    let ser = ser_node(t);
    let len_l: int = ser.len() as int;
    lemma_ser_node_len(t);
    lemma_be_rec_len((len_l as u64) as nat, 8);
    let nb: u64 = bits.len() as u64;
    lemma_be_rec_len(nb as nat, 8);
    lemma_pow256_bounds();
    let c = spec_container(t, bits);
    let pk = pack_spec(bits);
    let end = 8 + len_l;
    assert(c.len() == 16 + len_l + pk.len());
    assert forall|i: int| 0 <= i < c.len() implies c[i] == {
        if i < 8 {
            u64_be_bytes(len_l as u64)[i]
        } else if i < end {
            ser[i - 8]
        } else if i < end + 8 {
            u64_be_bytes(nb)[i - end]
        } else {
            pk[i - end - 8]
        }
    } by {}
    assert(c.subrange(0, 8) =~= u64_be_bytes(len_l as u64));
    lemma_bytes_val_be_rec(len_l as nat, 8);
    assert(bytes_val(c.subrange(0, 8)) == len_l);
    assert(c.subrange(8, end) =~= ser);
    lemma_parse_ser(t, c, 8);
    assert(c.subrange(end, end + 8) =~= u64_be_bytes(nb));
    lemma_bytes_val_be_rec(nb as nat, 8);
    assert(bytes_val(c.subrange(end, end + 8)) == bits.len());
    assert(c.subrange(end + 8, c.len() as int) =~= pk);
    assert(pk.len() == byte_count(bits.len()));
    lemma_unpack_pack(bits);
    assert(unpack_spec(c.subrange(end + 8, c.len() as int), bits.len()) == bits);
}

/// An element-for-element copy of a byte vector.
fn clone_bytes(v: &Vec<u8>) -> (r: Vec<u8>)
    ensures
        r@ == v@,
{
    let mut r: Vec<u8> = Vec::new();
    let mut i: usize = 0;
    while i < v.len()
        invariant
            i <= v@.len(),
            r@ == v@.subrange(0, i as int),
        decreases v@.len() - i,
    {
        r.push(v[i]);
        proof {
            assert(r@ =~= v@.subrange(0, i as int + 1));
        }
        i += 1;
    }
    proof {
        assert(v@.subrange(0, v@.len() as int) =~= v@);
    }
    r
}

/// Builds the Huffman tree of a non-empty buffer from its frequency table.
fn build_huffman_tree(v: Vec<u8>) -> (r: HuffmanTree)
    requires
        v@.len() > 0,
    ensures
        r@ == spec_build(counts_spec(v@)),
        r@.distinct_syms(),
        r@.size() <= 511,
        forall|b: u8| r@.has_sym(b) <==> counts_spec(v@)[b as int] > 0,
{
    proof {
        lemma_count_occ_positive(v@, 0);
        lemma_count_occ_le_len(v@, v@[0]);
        crate::bits::lemma_vec_len_bound(&v);
    }
    let table = FrequencyTable::from_vec(v);
    match HuffmanTree::from_table(&table) {
        Ok(t) => t,
        Err(_) => {
            proof {
                assert(table@[v@[0] as int] > 0);
                assert(false);
            }
            HuffmanTree::from_element(0, 0)
        },
    }
}

/// Packages an encoded bit sequence and its tree into one container.
fn serialize(compressed: Vec<bool>, ht: &HuffmanTree) -> (r: Vec<u8>)
    ensures
        r@ == spec_container(ht@, compressed@),
{
    let mut tree_bytes: Vec<u8> = Vec::new();
    serialize_node(ht.root_ref(), &mut tree_bytes);
    proof {
        assert(Seq::<u8>::empty() + ser_node(ht@) =~= ser_node(ht@));
    }
    let tree_size = tree_bytes.len();
    let mut ret = u64_to_be_vec(tree_size as u64);
    ret.append(&mut tree_bytes);
    let mut nbv = u64_to_be_vec(compressed.len() as u64);
    ret.append(&mut nbv);
    let mut data = pack_bits(&compressed);
    ret.append(&mut data);
    proof {
        assert(ret@ =~= spec_container(ht@, compressed@));
    }
    ret
}

/// Compresses a byte buffer into a self-describing container.  The result
/// is a function of the input alone, so equal inputs always yield identical
/// containers, and `uncompress` recovers the input exactly.
pub fn compress(v: Vec<u8>) -> (r: Vec<u8>)
    ensures
        r@ == spec_compress(v@),
        spec_uncompress(r@) == Some(v@),
{
    if v.len() == 0 {
        let mut out = u64_to_be_vec(0);
        let mut tail = u64_to_be_vec(0);
        out.append(&mut tail);
        proof {
            lemma_pow256_bounds();
            lemma_bytes_val_be_rec(0, 8);
            lemma_be_rec_len(0, 8);
            assert(out@.subrange(0, 8) =~= u64_be_bytes(0));
            assert(out@.subrange(8, 16) =~= u64_be_bytes(0));
            assert(bytes_val(out@.subrange(0, 8)) == 0);
            assert(bytes_val(out@.subrange(8, 16)) == 0);
            assert(v@ =~= Seq::<u8>::empty());
        }
        return out;
    }
    let copy = clone_bytes(&v);
    let tree = build_huffman_tree(copy);
    let codes = tree.prefix_code_table();
    let n = v.len();
    let mut bits: Vec<bool> = Vec::new();
    let mut i: usize = 0;
    proof {
        assert(v@.subrange(0, 0) =~= Seq::<u8>::empty());
    }
    while i < n
        invariant
            n == v@.len(),
            i <= n,
            tree@ == spec_build(counts_spec(v@)),
            tree@.distinct_syms(),
            tree@.size() <= 511,
            forall|b: u8| tree@.has_sym(b) <==> counts_spec(v@)[b as int] > 0,
            codes@.len() == 256,
            forall|b: u8| tree@.has_sym(b) ==> {
                &&& #[trigger] codes@[b as int] is Some
                &&& codes@[b as int]->0@ == tree@.code_of(b)
            },
            bits@ == encode_seq(tree@, v@.subrange(0, i as int)),
        decreases n - i,
    {
        let c = v[i];
        proof {
            lemma_count_occ_positive(v@, i as int);
            lemma_count_occ_le_len(v@, c);
            assert(counts_spec(v@)[c as int] > 0);
            assert(tree@.has_sym(c));
        }
        let code = match &codes[c as usize] {
            Some(code) => code,
            None => {
                proof {
                    assert(false);
                }
                return Vec::new();
            },
        };
        let m = code.len();
        let ghost pre_bits = bits@;
        let mut k: usize = 0;
        while k < m
            invariant
                m == code@.len(),
                k <= m,
                bits@ == pre_bits + code@.subrange(0, k as int),
            decreases m - k,
        {
            bits.push(code[k]);
            proof {
                assert(bits@ =~= pre_bits + code@.subrange(0, k as int + 1));
            }
            k += 1;
        }
        proof {
            assert(code@.subrange(0, m as int) =~= code@);
            crate::huffman_tree::lemma_encode_push(tree@, v@.subrange(0, i as int), c);
            assert(v@.subrange(0, i as int + 1) =~= v@.subrange(0, i as int).push(c));
        }
        i += 1;
    }
    proof {
        assert(v@.subrange(0, n as int) =~= v@);
    }
    let ghost bits_view = bits@;
    proof {
        crate::bits::lemma_vec_len_bound(&bits);
    }
    let out = serialize(bits, &tree);
    proof {
        lemma_ser_node_len(tree@);
        lemma_container_round_trip(tree@, bits_view);
        assert forall|j: int| 0 <= j < v@.len() implies tree@.has_sym(#[trigger] v@[j]) by {
            lemma_count_occ_positive(v@, j);
            lemma_count_occ_le_len(v@, v@[j]);
            assert(counts_spec(v@)[v@[j] as int] > 0);
        }
        lemma_decode_encode(tree@, v@);
    }
    out
}

/// Takes a container apart: the packed bits, unpacked to their declared
/// length, and the tree to decode them with.  The empty container yields no
/// bits and a placeholder single-leaf tree that decodes them to nothing.
fn deserialize(v: &Vec<u8>) -> (r: Result<(Vec<bool>, HuffmanTree), CompressError>)
    ensures
        match r {
            Ok(p) => spec_uncompress(v@) == Some(decode_all(p.1@, p.0@)),
            Err(e) => spec_uncompress(v@) is None && e == CompressError::CorruptContainer,
        },
{
    let blen = v.len();
    if blen < 8 {
        return Err(CompressError::CorruptContainer);
    }
    proof {
        lemma_bytes_val_bound(v@.subrange(0, 8));
        lemma_pow256_bounds();
    }
    let tree_len = be_u64_at(v, 0);
    if tree_len == 0 {
        if blen != 16 {
            return Err(CompressError::CorruptContainer);
        }
        proof {
            lemma_bytes_val_bound(v@.subrange(8, 16));
        }
        let nb = be_u64_at(v, 8);
        if nb != 0 {
            return Err(CompressError::CorruptContainer);
        }
        let bits: Vec<bool> = Vec::new();
        return Ok((bits, HuffmanTree::from_element(0, 0)));
    }
    if tree_len > (blen - 8) as u64 {
        return Err(CompressError::CorruptContainer);
    }
    let tl = tree_len as usize;
    let (root, end) = match parse_node(v, 8) {
        Ok(x) => x,
        Err(e) => {
            return Err(e);
        },
    };
    proof {
        lemma_parse_bounds(v@, 8);
    }
    if end != 8 + tl {
        return Err(CompressError::CorruptContainer);
    }
    if blen - end < 8 {
        return Err(CompressError::CorruptContainer);
    }
    proof {
        lemma_bytes_val_bound(v@.subrange(end as int, end as int + 8));
    }
    let nb = be_u64_at(v, end);
    let need = byte_count_exec(nb);
    let data_len = blen - end - 8;
    if (data_len as u64) != need {
        return Err(CompressError::CorruptContainer);
    }
    if nb > usize::MAX as u64 {
        return Err(CompressError::CorruptContainer);
    }
    let bits = unpack_bits(v, end + 8, nb as usize);
    proof {
        assert(v@.subrange(end as int + 8, end as int + 8 + byte_count(nb as nat) as int)
            =~= v@.subrange(end as int + 8, v@.len() as int));
    }
    Ok((bits, HuffmanTree::from_root(root)))
}

/// Recovers the exact byte buffer that a container encodes, or reports a
/// malformed container.
pub fn uncompress(v: Vec<u8>) -> (r: Result<Vec<u8>, CompressError>)
    ensures
        match r {
            Ok(out) => spec_uncompress(v@) == Some(out@),
            Err(e) => spec_uncompress(v@) is None && e == CompressError::CorruptContainer,
        },
{
    let (bits, ht) = match deserialize(&v) {
        Ok(x) => x,
        Err(e) => {
            return Err(e);
        },
    };
    Ok(ht.decode_bits(bits))
}

// ------------------------------------------------------------------
// Round trip
// ------------------------------------------------------------------

/// Round trip: uncompressing a compressed buffer yields the buffer back.
/// The two bounds exclude only what no machine could represent: a buffer
/// beyond the address space, or an encoded bit stream whose length would
/// not fit the container's 64-bit length field.
pub proof fn lemma_round_trip(v: Seq<u8>)
    requires
        v.len() <= usize::MAX,
        encode_seq(spec_build(counts_spec(v)), v).len() <= usize::MAX,
    ensures
        spec_uncompress(spec_compress(v)) == Some(v),
{
    lemma_pow256_bounds();
    if v.len() == 0 {
        let c = spec_compress(v);
        lemma_be_rec_len(0, 8);
        lemma_bytes_val_be_rec(0, 8);
        assert(c.subrange(0, 8) =~= u64_be_bytes(0));
        assert(c.subrange(8, 16) =~= u64_be_bytes(0));
        assert(bytes_val(c.subrange(0, 8)) == 0);
        assert(bytes_val(c.subrange(8, 16)) == 0);
        assert(v =~= Seq::<u8>::empty());
    } else {
        let counts = counts_spec(v);
        let t = spec_build(counts);
        let bits = encode_seq(t, v);
        lemma_leaves_props(counts, 256);
        lemma_counts_spec_sum(v);
        assert(counts[v[0] as int] > 0) by {
            lemma_count_occ_positive(v, 0);
            lemma_count_occ_le_len(v, v[0]);
        }
        assert(initial_leaves(counts).len() >= 1) by {
            assert(forest_has_sym(initial_leaves(counts), v[0]));
            let i = choose|i: int|
                0 <= i < initial_leaves(counts).len() && (#[trigger] initial_leaves(counts)[i])
                    .has_sym(v[0]);
        }
        lemma_merge_props(initial_leaves(counts));
        lemma_ser_node_len(t);
        lemma_container_round_trip(t, bits);
        assert forall|j: int| 0 <= j < v.len() implies t.has_sym(#[trigger] v[j]) by {
            lemma_count_occ_positive(v, j);
            lemma_count_occ_le_len(v, v[j]);
            assert(counts[v[j] as int] > 0);
            assert(forest_has_sym(initial_leaves(counts), v[j]));
        }
        lemma_decode_encode(t, v);
    }
}

/// Corrupt-container rejection: a compressed container with any bytes cut
/// off its end is reported malformed, never silently decoded.
pub proof fn lemma_truncation_rejected(v: Seq<u8>, k: int)
    requires
        v.len() <= usize::MAX,
        encode_seq(spec_build(counts_spec(v)), v).len() <= usize::MAX,
        0 <= k < spec_compress(v).len(),
    ensures
        spec_uncompress(spec_compress(v).take(k)) is None,
{
    lemma_pow256_bounds();
    let c = spec_compress(v);
    let tc = c.take(k);
    assert(tc.len() == k);
    if v.len() == 0 {
        lemma_be_rec_len(0, 8);
        lemma_bytes_val_be_rec(0, 8);
        if k >= 8 {
            assert(c.subrange(0, 8) =~= u64_be_bytes(0));
            assert(tc.subrange(0, 8) =~= c.subrange(0, 8));
            assert(bytes_val(tc.subrange(0, 8)) == 0);
            assert(tc.len() != 16);
        }
    } else {
        let counts = counts_spec(v);
        let t = spec_build(counts);
        let bits = encode_seq(t, v);
        let ser = ser_node(t);
        let len_l: int = ser.len() as int;
        let pk = pack_spec(bits);
        let end = 8 + len_l;
        lemma_counts_spec_sum(v);
        assert(counts[v[0] as int] > 0) by {
            lemma_count_occ_positive(v, 0);
            lemma_count_occ_le_len(v, v[0]);
        }
        lemma_leaves_props(counts, 256);
        assert(initial_leaves(counts).len() >= 1) by {
            assert(forest_has_sym(initial_leaves(counts), v[0]));
            let i = choose|i: int|
                0 <= i < initial_leaves(counts).len() && (#[trigger] initial_leaves(counts)[i])
                    .has_sym(v[0]);
        }
        lemma_merge_props(initial_leaves(counts));
        lemma_ser_node_len(t);
        lemma_be_rec_len((len_l as u64) as nat, 8);
        lemma_be_rec_len((bits.len() as u64) as nat, 8);
        assert(c.len() == 16 + len_l + pk.len());
        assert forall|i: int| 0 <= i < c.len() implies c[i] == {
            if i < 8 {
                u64_be_bytes(len_l as u64)[i]
            } else if i < end {
                ser[i - 8]
            } else if i < end + 8 {
                u64_be_bytes(bits.len() as u64)[i - end]
            } else {
                pk[i - end - 8]
            }
        } by {}
        if k >= 8 {
            assert(tc.subrange(0, 8) =~= u64_be_bytes(len_l as u64));
            lemma_bytes_val_be_rec(len_l as nat, 8);
            assert(bytes_val(tc.subrange(0, 8)) == len_l);
            if 8 + len_l <= k {
                assert(tc.subrange(8, end) =~= ser);
                lemma_parse_ser(t, tc, 8);
                assert(spec_parse_node(tc, 8) == Some((t, end)));
                if k >= end + 8 {
                    assert(tc.subrange(end, end + 8) =~= u64_be_bytes(bits.len() as u64));
                    lemma_bytes_val_be_rec(bits.len() as nat, 8);
                    assert(bytes_val(tc.subrange(end, end + 8)) == bits.len());
                    assert(pk.len() == byte_count(bits.len()));
                    assert(tc.len() - (end + 8) < byte_count(bits.len()));
                }
            }
        }
    }
}

} // verus!
