use vstd::prelude::*;

use crate::coding::EntropyCoding;
use crate::error::DecodeError;
use crate::huffman_tree::{step, tree_shaped, HuffmanClass, HuffmanNode, HuffmanTree};
use crate::scan_header::{ScanComponentSelector, ScanHeader};

verus! {

/// For each position of an 8x8 block in raster order, its index in
/// zig-zag order.
pub open spec fn zigzag_table() -> Seq<usize> {
    seq![
        0, 1, 5, 6, 14, 15, 27, 28, 2, 4, 7, 13, 16, 26, 29, 42,
        3, 8, 12, 17, 25, 30, 41, 43, 9, 11, 18, 24, 31, 40, 44, 53,
        10, 19, 23, 32, 39, 45, 52, 54, 20, 22, 33, 38, 46, 51, 55, 60,
        21, 34, 37, 47, 50, 56, 59, 61, 35, 36, 48, 49, 57, 58, 62, 63,
    ]
}

/// For each index in zig-zag order, the raster position it stands for.
pub open spec fn natural_order() -> Seq<usize> {
    seq![
        0, 1, 8, 16, 9, 2, 3, 10, 17, 24, 32, 25, 18, 11, 4, 5,
        12, 19, 26, 33, 40, 48, 41, 34, 27, 20, 13, 6, 7, 14, 21, 28,
        35, 42, 49, 56, 57, 50, 43, 36, 29, 22, 15, 23, 30, 37, 44, 51,
        58, 59, 52, 45, 38, 31, 39, 46, 53, 60, 61, 54, 47, 55, 62, 63,
    ]
}

/// A block in zig-zag order, rearranged into raster order.
pub open spec fn unzigzag<A>(b: Seq<A>) -> Seq<A> {
    Seq::new(64, |i: int| b[zigzag_table()[i] as int])
}

/// A block in raster order, rearranged into zig-zag order.
pub open spec fn zigzag<A>(b: Seq<A>) -> Seq<A> {
    Seq::new(64, |k: int| b[natural_order()[k] as int])
}

spec fn inverse_upto(a: Seq<usize>, b: Seq<usize>, n: nat) -> bool
    decreases n,
{
    n == 0 || (a[n - 1] < 64 && b[a[n - 1] as int] == n - 1 && inverse_upto(a, b, (n - 1) as nat))
}

proof fn lemma_inverse_upto(a: Seq<usize>, b: Seq<usize>, n: nat)
    requires
        inverse_upto(a, b, n),
    ensures
        forall|i: int| 0 <= i < n ==> #[trigger] a[i] < 64 && b[a[i] as int] == i,
    decreases n,
{
    if n > 0 {
        lemma_inverse_upto(a, b, (n - 1) as nat);
    }
}

proof fn lemma_tables_inverse()
    ensures
        forall|i: int| 0 <= i < 64 ==> #[trigger] zigzag_table()[i] < 64 && natural_order()[zigzag_table()[i] as int] == i,
        forall|k: int| 0 <= k < 64 ==> #[trigger] natural_order()[k] < 64 && zigzag_table()[natural_order()[k] as int] == k,
{
    reveal_with_fuel(inverse_upto, 65);
    assert(inverse_upto(zigzag_table(), natural_order(), 64));
    assert(inverse_upto(natural_order(), zigzag_table(), 64));
    lemma_inverse_upto(zigzag_table(), natural_order(), 64);
    lemma_inverse_upto(natural_order(), zigzag_table(), 64);
}

/// Putting a block into zig-zag order and back into raster order, or the
/// other way round, gives the block back.
pub proof fn lemma_zigzag_round_trip<A>(b: Seq<A>)
    requires
        b.len() == 64,
    ensures
        unzigzag(zigzag(b)) == b,
        zigzag(unzigzag(b)) == b,
{
    lemma_tables_inverse();
    assert(unzigzag(zigzag(b)) =~= b);
    assert(zigzag(unzigzag(b)) =~= b);
}

fn zigzag_table_array() -> (r: [usize; 64])
    ensures
        r@ == zigzag_table(),
{
    let t: [usize; 64] = [
        0, 1, 5, 6, 14, 15, 27, 28, 2, 4, 7, 13, 16, 26, 29, 42,
        3, 8, 12, 17, 25, 30, 41, 43, 9, 11, 18, 24, 31, 40, 44, 53,
        10, 19, 23, 32, 39, 45, 52, 54, 20, 22, 33, 38, 46, 51, 55, 60,
        21, 34, 37, 47, 50, 56, 59, 61, 35, 36, 48, 49, 57, 58, 62, 63,
    ];
    proof {
        assert(t@ =~= zigzag_table());
    }
    t
}

/// The index of the last tree of class `class` and destination `id`.
pub open spec fn find_tree(trees: Seq<HuffmanTree>, class: HuffmanClass, id: u8) -> Option<int>
    decreases trees.len(),
{
    if trees.len() == 0 {
        None
    } else if trees.last().spec_class() == class && trees.last().spec_destination_id() == id {
        Some(trees.len() - 1)
    } else {
        find_tree(trees.drop_last(), class, id)
    }
}

proof fn lemma_find_tree(trees: Seq<HuffmanTree>, class: HuffmanClass, id: u8)
    ensures
        find_tree(trees, class, id) matches Some(t) ==> 0 <= t < trees.len() && trees[t].spec_class() == class
            && trees[t].spec_destination_id() == id,
    decreases trees.len(),
{
    if trees.len() > 0 {
        lemma_find_tree(trees.drop_last(), class, id);
    }
}

/// Where the entropy decoder stands: the tree and node it is in, the scan
/// component whose symbol comes next, the coefficient position (modulo a
/// block) of that symbol, the symbols of the position decoded so far, and
/// the triples of the completed positions.
pub struct DecodeState {
    pub tree: int,
    pub node: int,
    pub component: int,
    pub position: int,
    pub batch: Seq<u8>,
    pub out: Seq<(u8, u8, u8)>,
}

/// The table for the next symbol: DC for the first coefficient of a block,
/// AC for the other 63.
pub open spec fn next_table(sels: Seq<ScanComponentSelector>, component: int, position: int) -> (HuffmanClass, u8) {
    if position == 0 {
        (HuffmanClass::DC, sels[component].dc_destination_id)
    } else {
        (HuffmanClass::AC, sels[component].ac_destination_id)
    }
}

/// The root of the tree for the next symbol, or the error of a missing table.
pub open spec fn enter_table(
    trees: Seq<HuffmanTree>,
    sels: Seq<ScanComponentSelector>,
    component: int,
    position: int,
    batch: Seq<u8>,
    out: Seq<(u8, u8, u8)>,
) -> Result<DecodeState, DecodeError> {
    let (class, id) = next_table(sels, component, position);
    match find_tree(trees, class, id) {
        None => Err(DecodeError::MissingHuffmanTable),
        Some(t) => Ok(
            DecodeState {
                tree: t,
                node: trees[t].spec_nodes().len() - 1,
                component,
                position,
                batch,
                out,
            },
        ),
    }
}

pub open spec fn start_state(trees: Seq<HuffmanTree>, sels: Seq<ScanComponentSelector>) -> Result<
    DecodeState,
    DecodeError,
> {
    enter_table(trees, sels, 0, 0, Seq::empty(), Seq::empty())
}

/// One transition: follow the bit; on reaching a leaf, emit its symbol for
/// the current component, move to the next component (completing a triple
/// after the last one) and restart at the root of the next symbol's tree.
pub open spec fn decode_step(
    trees: Seq<HuffmanTree>,
    sels: Seq<ScanComponentSelector>,
    st: DecodeState,
    bit: u8,
) -> Result<DecodeState, DecodeError> {
    let nodes = trees[st.tree].spec_nodes();
    match step(nodes, st.node, bit) {
        None => Err(DecodeError::InvalidBit),
        Some(n) => match nodes[n] {
            HuffmanNode::Internal { .. } => Ok(
                DecodeState {
                    tree: st.tree,
                    node: n,
                    component: st.component,
                    position: st.position,
                    batch: st.batch,
                    out: st.out,
                },
            ),
            HuffmanNode::Leaf { symbol, .. } => {
                let batch = st.batch.push(symbol);
                if st.component + 1 == sels.len() {
                    enter_table(
                        trees,
                        sels,
                        0,
                        (st.position + 1) % 64,
                        Seq::empty(),
                        st.out.push((batch[0], batch[1], batch[2])),
                    )
                } else {
                    enter_table(trees, sels, st.component + 1, st.position, batch, st.out)
                }
            },
        },
    }
}

/// The state after the first `n` bits.
pub open spec fn decode_run(
    trees: Seq<HuffmanTree>,
    sels: Seq<ScanComponentSelector>,
    bits: Seq<u8>,
    n: int,
) -> Result<DecodeState, DecodeError>
    decreases n,
{
    if n <= 0 {
        start_state(trees, sels)
    } else {
        match decode_run(trees, sels, bits, n - 1) {
            Err(e) => Err(e),
            Ok(st) => decode_step(trees, sels, st, bits[n - 1]),
        }
    }
}

/// What decoding a bit sequence yields: the component triples of every
/// completed coefficient position, in order; bits of an unfinished
/// position at the end are dropped.
pub open spec fn decode_spec(
    trees: Seq<HuffmanTree>,
    sels: Seq<ScanComponentSelector>,
    bits: Seq<u8>,
) -> Result<Seq<(u8, u8, u8)>, DecodeError> {
    if sels.len() != 3 {
        Err(DecodeError::UnsupportedComponentCount)
    } else {
        match decode_run(trees, sels, bits, bits.len() as int) {
            Ok(st) => Ok(st.out),
            Err(e) => Err(e),
        }
    }
}

proof fn lemma_run_stays_failed(
    trees: Seq<HuffmanTree>,
    sels: Seq<ScanComponentSelector>,
    bits: Seq<u8>,
    n: int,
    m: int,
)
    requires
        0 <= n <= m,
        decode_run(trees, sels, bits, n) is Err,
    ensures
        decode_run(trees, sels, bits, m) == decode_run(trees, sels, bits, n),
    decreases m - n,
{
    if m > n {
        lemma_run_stays_failed(trees, sels, bits, n, m - 1);
    }
}

/// Each bit emits at most one symbol: a run over `n` bits has completed at
/// most `n / 3` triples.
pub proof fn lemma_run_output_bound(
    trees: Seq<HuffmanTree>,
    sels: Seq<ScanComponentSelector>,
    bits: Seq<u8>,
    n: int,
)
    requires
        sels.len() == 3,
        0 <= n,
    ensures
        decode_run(trees, sels, bits, n) matches Ok(st) ==> st.batch.len() == st.component && 0 <= st.component
            < 3 && 3 * st.out.len() + st.batch.len() <= n,
    decreases n,
{
    if n > 0 {
        lemma_run_output_bound(trees, sels, bits, n - 1);
    }
}

/// `padded(d, k)`: the `k`-th triple, or zeros past the end.
pub open spec fn padded(d: Seq<(u8, u8, u8)>, k: int) -> (u8, u8, u8) {
    if 0 <= k < d.len() {
        d[k]
    } else {
        (0u8, 0u8, 0u8)
    }
}

/// Decodes the entropy-coded bits of a scan into coefficient triples.
pub struct EntropyDecoder<'a> {
    pub data: &'a [u8],
    pub cursor: usize,
    pub scan_header: ScanHeader,
    pub entropy_coding: EntropyCoding,
}

fn find_tree_index(trees: &Vec<HuffmanTree>, class: HuffmanClass, id: u8) -> (r: Option<usize>)
    ensures
        r matches Some(t) ==> find_tree(trees@, class, id) == Some(t as int),
        r is None ==> find_tree(trees@, class, id) is None,
{
    let mut i = trees.len();
    proof {
        assert(trees@.subrange(0, i as int) =~= trees@);
    }
    while i > 0
        invariant
            i <= trees@.len(),
            find_tree(trees@, class, id) == find_tree(trees@.subrange(0, i as int), class, id),
        decreases i,
    {
        let t = &trees[i - 1];
        proof {
            assert(trees@.subrange(0, i as int).drop_last() =~= trees@.subrange(0, i - 1));
        }
        if t.class() == class && t.destination_id() == id {
            return Some(i - 1);
        }
        i = i - 1;
    }
    None
}

impl<'a> EntropyDecoder<'a> {
    pub fn new(data: &'a [u8], scan_header: ScanHeader, entropy_coding: EntropyCoding) -> (r: EntropyDecoder<'a>)
        ensures
            r.data@ == data@,
            r.cursor == 0,
            r.scan_header == scan_header,
            r.entropy_coding == entropy_coding,
    {
        EntropyDecoder { data, cursor: 0, scan_header, entropy_coding }
    }

    /// Cuts the triples into blocks of 64 and puts each block from zig-zag
    /// order into raster order; a short last block is padded with zeros.
    pub fn zigzag(&mut self, data: Vec<(u8, u8, u8)>) -> (r: Result<Vec<Vec<(u8, u8, u8)>>, DecodeError>)
        requires
            data@.len() + 64 <= usize::MAX,
        ensures
            final(self).data == old(self).data,
            final(self).scan_header == old(self).scan_header,
            final(self).entropy_coding == old(self).entropy_coding,
            r matches Ok(blocks) && blocks@.len() == (data@.len() + 63) / 64 && forall|b: int|
                0 <= b < blocks@.len() ==> (#[trigger] blocks@[b])@ == unzigzag(
                    Seq::new(64, |k: int| padded(data@, 64 * b + k)),
                ),
    {
        let table = zigzag_table_array();
        let n = data.len();
        let mut blocks: Vec<Vec<(u8, u8, u8)>> = Vec::new();
        let mut start: usize = 0;
        let mut b: usize = 0;
        self.cursor = 0;
        while start < n
            invariant
                n == data@.len(),
                n + 64 <= usize::MAX,
                table@ == zigzag_table(),
                start == 64 * b,
                start < n + 64,
                blocks@.len() == b,
                b <= (n + 63) / 64,
                start < n ==> b < (n + 63) / 64,
                start >= n ==> b == (n + 63) / 64,
                forall|q: int|
                    0 <= q < b ==> (#[trigger] blocks@[q])@ == unzigzag(
                        Seq::new(64, |k: int| padded(data@, 64 * q + k)),
                    ),
                self.data == old(self).data,
                self.scan_header == old(self).scan_header,
                self.entropy_coding == old(self).entropy_coding,
            decreases n + 64 - start,
        {
            let mut block: Vec<(u8, u8, u8)> = Vec::new();
            let mut i: usize = 0;
            proof {
                lemma_tables_inverse();
            }
            while i < 64
                invariant
                    n == data@.len(),
                    table@ == zigzag_table(),
                    start == 64 * b,
                    start < n,
                    n + 64 <= usize::MAX,
                    i <= 64,
                    block@.len() == i,
                    forall|j: int| 0 <= j < 64 ==> #[trigger] zigzag_table()[j] < 64,
                    forall|j: int| 0 <= j < i ==> #[trigger] block@[j] == padded(data@, 64 * b + zigzag_table()[j]),
                decreases 64 - i,
            {
                let k = start + table[i];
                let v = if k < n {
                    data[k]
                } else {
                    (0u8, 0u8, 0u8)
                };
                block.push(v);
                i = i + 1;
            }
            proof {
                assert(block@ =~= unzigzag(Seq::new(64, |k: int| padded(data@, 64 * b + k))));
            }
            blocks.push(block);
            start = start + 64;
            b = b + 1;
            proof {
                assert(start == 64 * b);
                assert((n + 63) / 64 * 64 >= n) by (nonlinear_arith);
                assert(start < n ==> b < (n + 63) / 64) by (nonlinear_arith)
                    requires
                        start == 64 * b,
                ;
                assert(start >= n ==> b == (n + 63) / 64) by (nonlinear_arith)
                    requires
                        start == 64 * b,
                        start - 64 < n,
                ;
            }
        }
        Ok(blocks)
    }

    /// Decodes the scan's bits into one triple per coefficient position.
    pub fn decode(&mut self) -> (r: Result<Vec<(u8, u8, u8)>, DecodeError>)
        ensures
            final(self).data == old(self).data,
            final(self).scan_header == old(self).scan_header,
            final(self).entropy_coding == old(self).entropy_coding,
            old(self).entropy_coding matches EntropyCoding::Huffman(trees) ==> match decode_spec(
                trees@,
                old(self).scan_header.scan_component_selectors@,
                old(self).data@,
            ) {
                Ok(out) => r matches Ok(v) && v@ == out,
                Err(e) => r == Err::<Vec<(u8, u8, u8)>, DecodeError>(e),
            },
            old(self).entropy_coding is Arithmetic ==> r == Err::<Vec<(u8, u8, u8)>, DecodeError>(
                DecodeError::NotImplemented,
            ),
    {
        if let EntropyCoding::Arithmetic = &self.entropy_coding {
            return Err(DecodeError::NotImplemented);
        }
        self.decode_huffman()
    }

    fn decode_huffman(&mut self) -> (r: Result<Vec<(u8, u8, u8)>, DecodeError>)
        requires
            old(self).entropy_coding is Huffman,
        ensures
            final(self).data == old(self).data,
            final(self).scan_header == old(self).scan_header,
            final(self).entropy_coding == old(self).entropy_coding,
            old(self).entropy_coding matches EntropyCoding::Huffman(trees) ==> match decode_spec(
                trees@,
                old(self).scan_header.scan_component_selectors@,
                old(self).data@,
            ) {
                Ok(out) => r matches Ok(v) && v@ == out,
                Err(e) => r == Err::<Vec<(u8, u8, u8)>, DecodeError>(e),
            },
    {
        let i = self.decode_bits();
        match i {
            Ok((out, consumed)) => {
                self.cursor = consumed;
                Ok(out)
            },
            Err(e) => Err(e),
        }
    }

    fn decode_bits(&self) -> (r: Result<(Vec<(u8, u8, u8)>, usize), DecodeError>)
        requires
            self.entropy_coding is Huffman,
        ensures
            self.entropy_coding matches EntropyCoding::Huffman(trees) ==> match decode_spec(
                trees@,
                self.scan_header.scan_component_selectors@,
                self.data@,
            ) {
                Ok(out) => r matches Ok((v, _)) && v@ == out,
                Err(e) => r == Err::<(Vec<(u8, u8, u8)>, usize), DecodeError>(e),
            },
    {
        let trees = match &self.entropy_coding {
            EntropyCoding::Huffman(t) => t,
            EntropyCoding::Arithmetic => {
                return Err(DecodeError::NotImplemented);
            },
        };
        let sels = &self.scan_header.scan_component_selectors;
        let bits = self.data;
        if sels.len() != 3 {
            return Err(DecodeError::UnsupportedComponentCount);
        }
        let mut tree = match find_tree_index(trees, HuffmanClass::DC, sels[0].dc_destination_id) {
            Some(t) => t,
            None => {
                proof {
                    assert(decode_run(trees@, sels@, bits@, 0) == Err::<DecodeState, DecodeError>(
                        DecodeError::MissingHuffmanTable,
                    ));
                    lemma_run_stays_failed(trees@, sels@, bits@, 0, bits@.len() as int);
                }
                return Err(DecodeError::MissingHuffmanTable);
            },
        };
        proof {
            lemma_find_tree(trees@, HuffmanClass::DC, sels@[0].dc_destination_id);
        }
        let mut node = trees[tree].root();
        let mut component: usize = 0;
        let mut position: usize = 0;
        let mut batch: Vec<u8> = Vec::new();
        let mut out: Vec<(u8, u8, u8)> = Vec::new();
        let mut i: usize = 0;
        while i < bits.len()
            invariant
                bits@ == self.data@,
                sels@ == self.scan_header.scan_component_selectors@,
                self.entropy_coding matches EntropyCoding::Huffman(t) && t@ == trees@,
                sels@.len() == 3,
                i <= bits@.len(),
                tree < trees@.len(),
                node < trees@[tree as int].spec_nodes().len(),
                tree_shaped(trees@[tree as int].spec_nodes()),
                component < 3,
                position < 64,
                batch@.len() == component,
                decode_run(trees@, sels@, bits@, i as int) == Ok::<DecodeState, DecodeError>(
                    DecodeState {
                        tree: tree as int,
                        node: node as int,
                        component: component as int,
                        position: position as int,
                        batch: batch@,
                        out: out@,
                    },
                ),
            decreases bits@.len() - i,
        {
            let ghost st = DecodeState {
                tree: tree as int,
                node: node as int,
                component: component as int,
                position: position as int,
                batch: batch@,
                out: out@,
            };
            let bit = bits[i];
            let next = match trees[tree].node(node) {
                HuffmanNode::Internal { left, right, .. } => {
                    if bit == 0 {
                        left
                    } else if bit == 1 {
                        right
                    } else {
                        proof {
                            assert(decode_step(trees@, sels@, st, bit) == Err::<DecodeState, DecodeError>(
                                DecodeError::InvalidBit,
                            ));
                            assert(decode_run(trees@, sels@, bits@, i + 1) == Err::<DecodeState, DecodeError>(
                                DecodeError::InvalidBit,
                            ));
                            lemma_run_stays_failed(trees@, sels@, bits@, i + 1, bits@.len() as int);
                        }
                        return Err(DecodeError::InvalidBit);
                    }
                },
                HuffmanNode::Leaf { .. } => {
                    proof {
                        assert(decode_step(trees@, sels@, st, bit) == Err::<DecodeState, DecodeError>(
                            DecodeError::InvalidBit,
                        ));
                        assert(decode_run(trees@, sels@, bits@, i + 1) == Err::<DecodeState, DecodeError>(
                            DecodeError::InvalidBit,
                        ));
                        lemma_run_stays_failed(trees@, sels@, bits@, i + 1, bits@.len() as int);
                    }
                    return Err(DecodeError::InvalidBit);
                },
            };
            match trees[tree].node(next) {
                HuffmanNode::Internal { .. } => {
                    node = next;
                },
                HuffmanNode::Leaf { symbol, .. } => {
                    batch.push(symbol);
                    if component + 1 == 3 {
                        out.push((batch[0], batch[1], batch[2]));
                        batch = Vec::new();
                        component = 0;
                        position = (position + 1) % 64;
                    } else {
                        component = component + 1;
                    }
                    let (class, id) = if position == 0 {
                        (HuffmanClass::DC, sels[component].dc_destination_id)
                    } else {
                        (HuffmanClass::AC, sels[component].ac_destination_id)
                    };
                    match find_tree_index(trees, class, id) {
                        Some(t) => {
                            proof {
                                lemma_find_tree(trees@, class, id);
                            }
                            tree = t;
                            node = trees[t].root();
                        },
                        None => {
                            proof {
                                lemma_run_stays_failed(trees@, sels@, bits@, i + 1, bits@.len() as int);
                            }
                            return Err(DecodeError::MissingHuffmanTable);
                        },
                    }
                },
            }
            i = i + 1;
        }
        Ok((out, i))
    }
}

} // verus!
