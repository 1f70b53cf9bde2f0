use vstd::prelude::*;

use crate::bitreader::{bit_of, BitReader};
use crate::coding::{CodingProcess, EntropyCoding};
use crate::dequantizer::{dequantize_error, dequantized, Block, Dequantizer, find_table, table_for};
use crate::entropy_decoder::{decode_spec, lemma_run_output_bound, padded, unzigzag, EntropyDecoder};
use crate::error::DecodeError;
use crate::frame_header::{Component, FrameHeader};
use crate::huffman_tree::{built_from, HuffmanClass, HuffmanTree};
use crate::marker::{DHT, DQT, SOF0, SOS};
use crate::parser::{
    dht_class, dht_destination, dht_pairs, huffman_error, is_frame_header, is_quant_table,
    is_scan_header, quant_error, sof_error, sos_error, Parser,
};
use crate::quantization_table::QuantizationTable;
use crate::sample_precision::SamplePrecision;
use crate::scan_header::ScanHeader;
use crate::scanner::{boundaries_ok, marlens, read_markers, scan_ok, starts_with_soi, MarlenMap};
use crate::stuffing::unstuff;

verus! {

/// What the segments of a baseline image hold, with the entropy-coded data
/// freed of byte stuffing.
pub struct JFIF {
    pub data: Vec<u8>,
    pub entropy_coding: EntropyCoding,
    pub quant_tables: Vec<QuantizationTable>,
    pub frame_header: FrameHeader,
    pub scan_header: ScanHeader,
}

/// Why the segments cannot be read, if so: the Huffman tables, then the
/// quantization tables, the frame header and the scan header are read in
/// turn, and the entropy-coded data must end before the end-of-image marker.
pub open spec fn segments_error(buf: Seq<u8>, map: MarlenMap) -> Option<DecodeError> {
    let sos = map.spec_get(SOS);
    if huffman_error(buf, map.spec_get(DHT)) is Some {
        huffman_error(buf, map.spec_get(DHT))
    } else if quant_error(buf, map.spec_get(DQT)) is Some {
        quant_error(buf, map.spec_get(DQT))
    } else if sof_error(buf, map.spec_get(SOF0)) is Some {
        sof_error(buf, map.spec_get(SOF0))
    } else if sos_error(buf, sos) is Some {
        sos_error(buf, sos)
    } else if buf.len() < 2 || sos[0].offset + 10 > buf.len() - 2 {
        Some(DecodeError::InsufficientData)
    } else {
        None
    }
}

/// `j` holds what the segments of `buf` say: the Huffman trees and
/// quantization tables in file order, the two headers, and the
/// entropy-coded data between the scan header and the end-of-image marker,
/// unstuffed.
pub open spec fn is_jfif(buf: Seq<u8>, map: MarlenMap, j: JFIF) -> bool {
    let dht = map.spec_get(DHT);
    let dqt = map.spec_get(DQT);
    let sos = map.spec_get(SOS);
    &&& j.entropy_coding matches EntropyCoding::Huffman(trees) && trees@.len() == 4 && forall|i: int|
        0 <= i < 4 ==> built_from(
            #[trigger] trees@[i],
            dht_class(buf, dht[i]),
            dht_destination(buf, dht[i]),
            dht_pairs(buf, dht[i]),
        )
    &&& j.quant_tables@.len() == 2
    &&& forall|i: int| 0 <= i < 2 ==> is_quant_table(buf, dqt[i], #[trigger] j.quant_tables@[i])
    &&& is_frame_header(buf, map.spec_get(SOF0)[0].offset as int, j.frame_header)
    &&& is_scan_header(buf, sos[0].offset as int, j.scan_header)
    &&& j.data@ == unstuff(buf.subrange(sos[0].offset + 10, buf.len() - 2))
}

/// Decodes the segments of a baseline JPEG held in memory.
pub struct JpegDecoder {
    pub parser: Parser,
}

impl JpegDecoder {
    pub fn new(buffer: Vec<u8>, marlen_map: MarlenMap) -> (r: JpegDecoder)
        ensures
            r.parser.buffer@ == buffer@,
            r.parser.marlen_map == marlen_map,
            r.parser.encoding == CodingProcess::BaselineDCT,
    {
        JpegDecoder { parser: Parser::new(buffer, marlen_map, CodingProcess::BaselineDCT) }
    }

    /// Validates the buffer's frame and locates its markers.
    pub fn from_buffer(buffer: Vec<u8>) -> (r: Result<JpegDecoder, DecodeError>)
        ensures
            r is Ok <==> starts_with_soi(buffer@) && scan_ok(buffer@) && boundaries_ok(buffer@),
            r matches Ok(d) ==> d.parser.buffer@ == buffer@ && d.parser.encoding == CodingProcess::BaselineDCT
                && forall|c: u8| #[trigger] d.parser.marlen_map.spec_get(c) == marlens(buffer@, c, buffer@.len() as int),
    {
        let map = read_markers(&buffer)?;
        Ok(JpegDecoder::new(buffer, map))
    }

    /// Reads every segment that decoding needs.
    pub fn decode(&self) -> (r: Result<JFIF, DecodeError>)
        ensures
            r is Ok <==> segments_error(self.parser.buffer@, self.parser.marlen_map) is None,
            r matches Err(e) ==> segments_error(self.parser.buffer@, self.parser.marlen_map) == Some(e),
            r matches Ok(j) ==> is_jfif(self.parser.buffer@, self.parser.marlen_map, j),
    {
        let trees = self.parser.parse_huffman_trees()?;
        let quant_tables = self.parser.parse_quant_table()?;
        let frame_header = self.parser.parse_start_of_frame()?;
        let (scan_header, start) = self.parser.parse_start_of_scan()?;
        let data = self.parser.parse_image_data(start)?;
        Ok(JFIF { data, entropy_coding: EntropyCoding::Huffman(trees), quant_tables, frame_header, scan_header })
    }
}

pub open spec fn count_class(trees: Seq<HuffmanTree>, class: HuffmanClass) -> nat
    decreases trees.len(),
{
    if trees.len() == 0 {
        0
    } else {
        count_class(trees.drop_last(), class) + if trees.last().spec_class() == class {
            1nat
        } else {
            0nat
        }
    }
}

/// The index of the first table installed in destination `id`.
pub open spec fn find_quant_table(tables: Seq<QuantizationTable>, id: u8) -> Option<int>
    decreases tables.len(),
{
    if tables.len() == 0 {
        None
    } else {
        match find_quant_table(tables.drop_last(), id) {
            Some(i) => Some(i),
            None => if tables.last().table_id == id {
                Some(tables.len() - 1)
            } else {
                None
            },
        }
    }
}

/// The index of the last frame component labelled `id`.
pub open spec fn find_component(components: Seq<Component>, id: u8) -> Option<int>
    decreases components.len(),
{
    if components.len() == 0 {
        None
    } else if components.last().component_id == id {
        Some(components.len() - 1)
    } else {
        find_component(components.drop_last(), id)
    }
}

/// The quantization values of the frame component labelled `id`.
pub open spec fn component_table(components: Seq<Component>, tables: Seq<QuantizationTable>, id: u8) -> Seq<u8> {
    tables[find_quant_table(tables, components[find_component(components, id)->0].qt_table_id)->0].quantization_table_element@
}

/// The bits of the data, most significant first.
pub open spec fn bits_of(data: Seq<u8>) -> Seq<u8> {
    Seq::new(8 * data.len(), |j: int| bit_of(data[j / 8], j % 8))
}

/// The triples cut into blocks of 64 and put into raster order.
pub open spec fn blocks_of(out: Seq<(u8, u8, u8)>) -> Seq<Seq<(u8, u8, u8)>> {
    Seq::new((out.len() + 63) / 64, |b: int| unzigzag(Seq::new(64, |k: int| padded(out, 64 * b + k))))
}

/// Why the parsed segments cannot be decoded, if so: the headers must agree
/// on the component type, the tables must be Huffman tables of the baseline
/// schema (two AC, two DC), samples must be 8-bit, the data must be of a
/// size whose bits can be counted, and each frame component must name a
/// table that is defined.
pub open spec fn validation_error(j: JFIF) -> Option<DecodeError> {
    if j.frame_header.component_type != j.scan_header.component_type {
        Some(DecodeError::ComponentTypeMismatch)
    } else {
        match j.entropy_coding {
            EntropyCoding::Arithmetic => Some(DecodeError::NotImplemented),
            EntropyCoding::Huffman(trees) => if count_class(trees@, HuffmanClass::AC) != 2 || count_class(
                trees@,
                HuffmanClass::DC,
            ) != 2 {
                Some(DecodeError::TableCountMismatch)
            } else if j.frame_header.precision != SamplePrecision::EightBit || exists|i: int|
                0 <= i < j.quant_tables@.len() && (#[trigger] j.quant_tables@[i]).precision
                    != SamplePrecision::EightBit {
                Some(DecodeError::UnsupportedPrecision)
            } else if 8 * j.data@.len() + 64 > usize::MAX {
                Some(DecodeError::InsufficientData)
            } else if exists|i: int|
                0 <= i < j.frame_header.components@.len() && find_quant_table(
                    j.quant_tables@,
                    (#[trigger] j.frame_header.components@[i]).qt_table_id,
                ) is None {
                Some(DecodeError::MissingQuantizationTable)
            } else {
                None
            },
        }
    }
}

fn count_trees(trees: &Vec<HuffmanTree>, class: HuffmanClass) -> (r: usize)
    ensures
        r == count_class(trees@, class),
{
    let mut count: usize = 0;
    let mut i: usize = 0;
    proof {
        assert(trees@.subrange(0, 0) =~= Seq::<HuffmanTree>::empty());
    }
    while i < trees.len()
        invariant
            i <= trees@.len(),
            count == count_class(trees@.subrange(0, i as int), class),
            count <= i,
        decreases trees@.len() - i,
    {
        proof {
            assert(trees@.subrange(0, i + 1).drop_last() =~= trees@.subrange(0, i as int));
        }
        if trees[i].class() == class {
            count = count + 1;
        }
        i = i + 1;
    }
    proof {
        assert(trees@.subrange(0, i as int) =~= trees@);
    }
    count
}

fn all_eight_bit(tables: &Vec<QuantizationTable>) -> (r: bool)
    ensures
        r == forall|i: int| 0 <= i < tables@.len() ==> (#[trigger] tables@[i]).precision == SamplePrecision::EightBit,
{
    let mut i: usize = 0;
    while i < tables.len()
        invariant
            i <= tables@.len(),
            forall|q: int| 0 <= q < i ==> (#[trigger] tables@[q]).precision == SamplePrecision::EightBit,
        decreases tables@.len() - i,
    {
        if tables[i].precision != SamplePrecision::EightBit {
            return false;
        }
        i = i + 1;
    }
    true
}

fn find_quant_table_index(tables: &Vec<QuantizationTable>, id: u8) -> (r: Option<usize>)
    ensures
        r matches Some(t) ==> find_quant_table(tables@, id) == Some(t as int) && t < tables@.len(),
        r is None ==> find_quant_table(tables@, id) is None,
{
    let mut i: usize = 0;
    proof {
        assert(tables@.subrange(0, 0) =~= Seq::<QuantizationTable>::empty());
    }
    while i < tables.len()
        invariant
            i <= tables@.len(),
            find_quant_table(tables@.subrange(0, i as int), id) is None,
        decreases tables@.len() - i,
    {
        proof {
            assert(tables@.subrange(0, i + 1).drop_last() =~= tables@.subrange(0, i as int));
        }
        if tables[i].table_id == id {
            proof {
                lemma_find_quant_table_prefix(tables@, id, i + 1);
            }
            return Some(i);
        }
        i = i + 1;
    }
    proof {
        assert(tables@.subrange(0, i as int) =~= tables@);
    }
    None
}

/// A table found in a prefix is the one found in the whole sequence.
proof fn lemma_find_quant_table_prefix(tables: Seq<QuantizationTable>, id: u8, n: int)
    requires
        0 <= n <= tables.len(),
        find_quant_table(tables.subrange(0, n), id) is Some,
    ensures
        find_quant_table(tables, id) == find_quant_table(tables.subrange(0, n), id),
    decreases tables.len() - n,
{
    if n < tables.len() {
        assert(tables.subrange(0, n + 1).drop_last() =~= tables.subrange(0, n));
        lemma_find_quant_table_prefix(tables, id, n + 1);
    } else {
        assert(tables.subrange(0, n) =~= tables);
    }
}

/// A map keyed by the components' labels, in component order, is searched
/// as the components are.
proof fn lemma_map_follows_components(map: Seq<(u8, QuantizationTable)>, components: Seq<Component>, id: u8)
    requires
        map.len() == components.len(),
        forall|i: int| 0 <= i < map.len() ==> (#[trigger] map[i]).0 == components[i].component_id,
    ensures
        find_table(map, id) == find_component(components, id),
    decreases map.len(),
{
    if map.len() > 0 {
        lemma_map_follows_components(map.drop_last(), components.drop_last(), id);
    }
}

fn copy_bytes(v: &Vec<u8>) -> (r: Vec<u8>)
    ensures
        r@ == v@,
{
    let mut r: Vec<u8> = Vec::new();
    let mut i: usize = 0;
    while i < v.len()
        invariant
            i <= v@.len(),
            r@ == v@.subrange(0, i as int),
        decreases v@.len() - i,
    {
        r.push(v[i]);
        proof {
            assert(r@ =~= v@.subrange(0, i + 1));
        }
        i = i + 1;
    }
    proof {
        assert(r@ =~= v@);
    }
    r
}

/// Pairs each frame component's label with a copy of the table it names.
fn build_quant_map(components: &Vec<Component>, tables: &Vec<QuantizationTable>) -> (r: Result<
    Vec<(u8, QuantizationTable)>,
    DecodeError,
>)
    ensures
        r is Err <==> exists|i: int|
            0 <= i < components@.len() && find_quant_table(tables@, (#[trigger] components@[i]).qt_table_id) is None,
        r is Err ==> r matches Err(DecodeError::MissingQuantizationTable),
        r matches Ok(map) ==> map@.len() == components@.len() && forall|i: int|
            0 <= i < map@.len() ==> (#[trigger] map@[i]).0 == components@[i].component_id
                && map@[i].1.quantization_table_element@ == tables@[find_quant_table(
                tables@,
                components@[i].qt_table_id,
            )->0].quantization_table_element@,
{
    let mut map: Vec<(u8, QuantizationTable)> = Vec::new();
    let mut i: usize = 0;
    while i < components.len()
        invariant
            i <= components@.len(),
            map@.len() == i,
            forall|q: int|
                0 <= q < i ==> find_quant_table(tables@, (#[trigger] components@[q]).qt_table_id) is Some,
            forall|q: int|
                0 <= q < i ==> (#[trigger] map@[q]).0 == components@[q].component_id
                    && map@[q].1.quantization_table_element@ == tables@[find_quant_table(
                    tables@,
                    components@[q].qt_table_id,
                )->0].quantization_table_element@,
        decreases components@.len() - i,
    {
        let c = components[i];
        match find_quant_table_index(tables, c.qt_table_id) {
            Some(t) => {
                let table = &tables[t];
                let copy = QuantizationTable::from(
                    table.table_id,
                    table.precision,
                    copy_bytes(&table.quantization_table_element),
                );
                map.push((c.component_id, copy));
            },
            None => {
                return Err(DecodeError::MissingQuantizationTable);
            },
        }
        i = i + 1;
    }
    Ok(map)
}

impl JFIF {
    /// Decodes the entropy-coded data into dequantized blocks: validates
    /// the segments against the baseline schema, expands the data into
    /// bits, decodes one triple per coefficient position, puts each block
    /// of 64 into raster order and scales it by the tables of the scan's
    /// components.
    pub fn decode_blocks(self) -> (r: Result<Vec<(Block, Block, Block)>, DecodeError>)
        ensures
            validation_error(self) matches Some(e) ==> r == Err::<Vec<(Block, Block, Block)>, DecodeError>(e),
            validation_error(self) is None ==> (self.entropy_coding matches EntropyCoding::Huffman(trees)
                ==> match decode_spec(
                trees@,
                self.scan_header.scan_component_selectors@,
                bits_of(self.data@),
            ) {
                Err(e) => r == Err::<Vec<(Block, Block, Block)>, DecodeError>(e),
                Ok(out) => {
                    let sels = self.scan_header.scan_component_selectors@;
                    let comps = self.frame_header.components@;
                    let tables = self.quant_tables@;
                    if exists|c: int| 0 <= c < 3 && find_component(comps, (#[trigger] sels[c]).component_id) is None {
                        r == Err::<Vec<(Block, Block, Block)>, DecodeError>(DecodeError::MissingQuantizationTable)
                    } else if exists|c: int|
                        0 <= c < 3 && component_table(comps, tables, (#[trigger] sels[c]).component_id).len() != 64 {
                        r == Err::<Vec<(Block, Block, Block)>, DecodeError>(DecodeError::InsufficientData)
                    } else {
                        r matches Ok(res) && res@.len() == blocks_of(out).len() && forall|b: int|
                            0 <= b < res@.len() ==> dequantized(
                                blocks_of(out)[b],
                                component_table(comps, tables, sels[0].component_id),
                                component_table(comps, tables, sels[1].component_id),
                                component_table(comps, tables, sels[2].component_id),
                                #[trigger] res@[b],
                            )
                    }
                },
            }),
    {
        let ghost j = self;
        let JFIF { data, entropy_coding, quant_tables, frame_header, scan_header } = self;
        if frame_header.component_type != scan_header.component_type {
            return Err(DecodeError::ComponentTypeMismatch);
        }
        let trees = match &entropy_coding {
            EntropyCoding::Huffman(t) => t,
            EntropyCoding::Arithmetic => {
                return Err(DecodeError::NotImplemented);
            },
        };
        let (expected_ac, expected_dc) = CodingProcess::BaselineDCT.schema().entropy_table_count;
        if count_trees(trees, HuffmanClass::AC) != expected_ac || count_trees(trees, HuffmanClass::DC)
            != expected_dc {
            return Err(DecodeError::TableCountMismatch);
        }
        if frame_header.precision != SamplePrecision::EightBit || !all_eight_bit(&quant_tables) {
            return Err(DecodeError::UnsupportedPrecision);
        }
        if data.len() > (usize::MAX - 64) / 8 {
            return Err(DecodeError::InsufficientData);
        }
        let map = build_quant_map(&frame_header.components, &quant_tables)?;
        let ghost trees_v = trees@;
        let mut order: Vec<u8> = Vec::new();
        let mut c: usize = 0;
        while c < scan_header.scan_component_selectors.len()
            invariant
                c <= scan_header.scan_component_selectors@.len(),
                order@.len() == c,
                forall|q: int|
                    0 <= q < c ==> #[trigger] order@[q] == scan_header.scan_component_selectors@[q].component_id,
            decreases scan_header.scan_component_selectors@.len() - c,
        {
            order.push(scan_header.scan_component_selectors[c].component_id);
            c = c + 1;
        }
        let mut reader = BitReader::new(data.as_slice(), scan_header.encoding_order);
        let bits = reader.slice_to_bits();
        proof {
            assert forall|i: int| 0 <= i < bits@.len() implies #[trigger] bits@[i] == bits_of(data@)[i] by {
                let k = i / 8;
                let b = i % 8;
                assert(i == 8 * k + b);
                assert(bits@[8 * k + b] == bit_of(data@[k], b));
            }
            assert(bits@ =~= bits_of(data@));
        }
        let ghost sels = scan_header.scan_component_selectors@;
        let mut entropy = EntropyDecoder::new(bits.as_slice(), scan_header, entropy_coding);
        let triples = entropy.decode()?;
        proof {
            lemma_run_output_bound(trees_v, sels, bits@, bits@.len() as int);
        }
        let blocks = entropy.zigzag(triples)?;
        let ghost blocks_v = blocks@;
        proof {
            assert forall|c: int| 0 <= c < 3 implies find_table(map@, #[trigger] order@[c]) == find_component(
                j.frame_header.components@,
                order@[c],
            ) by {
                lemma_map_follows_components(map@, j.frame_header.components@, order@[c]);
            }
        }
        let ghost map_v = map@;
        let ghost order_v = order@;
        let mut dq = Dequantizer::new(blocks, order, map);
        let result = dq.dequantize();
        proof {
            let out = triples@;
            let comps = j.frame_header.components@;
            let tables = j.quant_tables@;
            assert(order_v.len() == 3);
            assert forall|c: int| 0 <= c < 3 implies #[trigger] order_v[c] == sels[c].component_id by {}
            assert forall|c: int|
                0 <= c < 3 && find_table(map_v, #[trigger] order_v[c]) is Some implies table_for(
                map_v,
                order_v[c],
            ) == component_table(comps, tables, order_v[c]) by {
                lemma_map_follows_components(map_v, comps, order_v[c]);
                let i = find_table(map_v, order_v[c])->0;
                crate::dequantizer::lemma_find_table_bound(map_v, order_v[c]);
                assert(map_v[i].0 == comps[i].component_id);
            }
            assert forall|b: int| 0 <= b < blocks_v.len() implies (#[trigger] blocks_v[b])@ == blocks_of(out)[b] && blocks_v[b]@.len() == 64 by {}
            if exists|c: int| 0 <= c < 3 && find_component(comps, (#[trigger] sels[c]).component_id) is None {
                let c = choose|c: int| 0 <= c < 3 && find_component(comps, (#[trigger] sels[c]).component_id) is None;
                assert(find_table(map_v, order_v[c]) is None);
            } else {
                assert forall|c: int| 0 <= c < 3 implies find_table(map_v, #[trigger] order_v[c]) is Some by {
                    assert(find_component(comps, sels[c].component_id) is Some);
                }
                if exists|c: int|
                    0 <= c < 3 && component_table(comps, tables, (#[trigger] sels[c]).component_id).len() != 64 {
                    let c = choose|c: int|
                        0 <= c < 3 && component_table(comps, tables, (#[trigger] sels[c]).component_id).len() != 64;
                    assert(table_for(map_v, order_v[c]).len() != 64);
                } else {
                    assert(table_for(map_v, order_v[0]).len() == 64);
                    assert(table_for(map_v, order_v[1]).len() == 64);
                    assert(table_for(map_v, order_v[2]).len() == 64);
                    assert(dequantize_error(blocks_v, order_v, map_v) is None);
                }
            }
        }
        result
    }
}

} // verus!
