use vstd::prelude::*;

use crate::coding::CodingProcess;
use crate::error::DecodeError;
use crate::frame_header::{component_type_of, Component, ComponentType, FrameHeader};
use crate::huffman_tree::{built_from, class_of, total_weight, HuffmanClass, HuffmanTree};
use crate::marker::{Marker, DHT, DQT, SOF0, SOS};
use crate::quantization_table::QuantizationTable;
use crate::sample_precision::SamplePrecision;
use crate::scan_header::{EncodingOrder, ScanComponentSelector, ScanHeader};
use crate::scanner::{be16, MarLen, MarlenMap};
use crate::stuffing::{sanitize, unstuff};

verus! {

/// The table-information byte that opens a table segment.
pub const INFORMATION_BYTES: usize = 1;
/// The code-length histogram of a Huffman table: counts for lengths 1 to 16.
pub const HUFFMAN_SYM_BYTES: usize = 16;
/// The values of a quantization table.
pub const QUANTIZATION_TABLE_BYTES: usize = 64;
/// Huffman table segments in a baseline image: two AC and two DC.
pub const BASELINE_HUFFMAN_SEGMENTS: usize = 4;
/// Quantization table segments in a baseline image.
pub const BASELINE_QUANTIZATION_SEGMENTS: usize = 2;

/// The number of codes that a code-length histogram counts.
pub open spec fn histogram_total(h: Seq<u8>) -> nat
    decreases h.len(),
{
    if h.len() == 0 {
        0
    } else {
        histogram_total(h.drop_last()) + h.last() as nat
    }
}

pub open spec fn repeat(v: usize, c: nat) -> Seq<usize>
    decreases c,
{
    if c == 0 {
        Seq::empty()
    } else {
        repeat(v, (c - 1) as nat).push(v)
    }
}

/// The code length of each symbol, in symbol order: `h[0]` times 1,
/// then `h[1]` times 2, and so on.
pub open spec fn flat_lengths(h: Seq<u8>) -> Seq<usize>
    decreases h.len(),
{
    if h.len() == 0 {
        Seq::empty()
    } else {
        flat_lengths(h.drop_last()) + repeat(h.len() as usize, h.last() as nat)
    }
}

/// The histogram implies as many symbols as it counts codes.
pub proof fn lemma_flat_lengths_len(h: Seq<u8>)
    requires
        h.len() <= 16,
    ensures
        flat_lengths(h).len() == histogram_total(h),
        forall|k: int| 0 <= k < flat_lengths(h).len() ==> 1 <= #[trigger] flat_lengths(h)[k] <= h.len(),
    decreases h.len(),
{
    if h.len() > 0 {
        let d = h.drop_last();
        lemma_flat_lengths_len(d);
        lemma_repeat(h.len() as usize, h.last() as nat);
        let f = flat_lengths(h);
        let a = flat_lengths(d);
        let b = repeat(h.len() as usize, h.last() as nat);
        assert(f == a + b);
        assert forall|k: int| 0 <= k < f.len() implies 1 <= #[trigger] f[k] <= h.len() by {
            if k < a.len() {
                assert(f[k] == a[k]);
            } else {
                assert(f[k] == b[k - a.len()]);
            }
        }
    }
}

proof fn lemma_repeat(v: usize, c: nat)
    ensures
        repeat(v, c).len() == c,
        forall|k: int| 0 <= k < c ==> #[trigger] repeat(v, c)[k] == v,
    decreases c,
{
    if c > 0 {
        lemma_repeat(v, (c - 1) as nat);
    }
}

pub open spec fn dht_histogram(buf: Seq<u8>, m: MarLen) -> Seq<u8> {
    buf.subrange(m.offset + 1, m.offset + 17)
}

pub open spec fn dht_symbols(buf: Seq<u8>, m: MarLen) -> Seq<u8> {
    buf.subrange(m.offset + 17, m.offset + m.length)
}

/// Why a Huffman table segment is rejected, if it is: it must hold the
/// information byte and the histogram, lie inside the buffer, and list
/// exactly as many symbols as its histogram counts, at least one.
pub open spec fn dht_error(buf: Seq<u8>, m: MarLen) -> Option<DecodeError> {
    if m.length < 17 || m.offset + m.length > buf.len() {
        Some(DecodeError::InsufficientData)
    } else if dht_symbols(buf, m).len() != histogram_total(dht_histogram(buf, m)) || dht_symbols(
        buf,
        m,
    ).len() == 0 {
        Some(DecodeError::MalformedHuffmanTable)
    } else {
        None
    }
}

/// Why the Huffman tables are rejected, if they are: there must be four
/// segments; the first one that is rejected gives the error.
pub open spec fn huffman_error(buf: Seq<u8>, ms: Seq<MarLen>) -> Option<DecodeError> {
    if ms.len() == 0 {
        Some(DecodeError::MissingMarker(DHT))
    } else if ms.len() != 4 {
        Some(DecodeError::WrongSegmentCount(DHT))
    } else if dht_error(buf, ms[0]) is Some {
        dht_error(buf, ms[0])
    } else if dht_error(buf, ms[1]) is Some {
        dht_error(buf, ms[1])
    } else if dht_error(buf, ms[2]) is Some {
        dht_error(buf, ms[2])
    } else {
        dht_error(buf, ms[3])
    }
}

/// Why the quantization tables are rejected, if they are: there must be two
/// segments; the first one that is rejected gives the error.
pub open spec fn quant_error(buf: Seq<u8>, ms: Seq<MarLen>) -> Option<DecodeError> {
    if ms.len() == 0 {
        Some(DecodeError::MissingMarker(DQT))
    } else if ms.len() != 2 {
        Some(DecodeError::WrongSegmentCount(DQT))
    } else if dqt_error(buf, ms[0]) is Some {
        dqt_error(buf, ms[0])
    } else {
        dqt_error(buf, ms[1])
    }
}

/// Each symbol of the segment paired with its code length.
pub open spec fn dht_pairs(buf: Seq<u8>, m: MarLen) -> Seq<(u8, usize)> {
    Seq::new(
        dht_symbols(buf, m).len(),
        |k: int| (dht_symbols(buf, m)[k], flat_lengths(dht_histogram(buf, m))[k]),
    )
}

/// Bit 4 of the information byte: 0 for DC, 1 for AC.
pub open spec fn dht_class(buf: Seq<u8>, m: MarLen) -> HuffmanClass {
    class_of((buf[m.offset as int] & 0x10) >> 4)
}

/// The low four bits of the information byte.
pub open spec fn dht_destination(buf: Seq<u8>, m: MarLen) -> u8 {
    buf[m.offset as int] & 0x0F
}

/// Why a quantization table segment is rejected, if it is: the information
/// byte and 64 values must lie inside the buffer, and the values must be
/// 8-bit.
pub open spec fn dqt_error(buf: Seq<u8>, m: MarLen) -> Option<DecodeError> {
    if m.offset + 65 > buf.len() {
        Some(DecodeError::InsufficientData)
    } else if buf[m.offset as int] >> 4 != 0 {
        Some(DecodeError::UnsupportedPrecision)
    } else {
        None
    }
}

/// The table read from a quantization table segment.
pub open spec fn is_quant_table(buf: Seq<u8>, m: MarLen, t: QuantizationTable) -> bool {
    &&& t.precision == SamplePrecision::EightBit
    &&& t.table_id == buf[m.offset as int] & 0x0F
    &&& t.quantization_table_element@ == buf.subrange(m.offset + 1, m.offset + 65)
}

/// Why the frame header is rejected, if it is.
pub open spec fn sof_error(buf: Seq<u8>, ms: Seq<MarLen>) -> Option<DecodeError> {
    if ms.len() == 0 {
        Some(DecodeError::MissingMarker(SOF0))
    } else if ms.len() != 1 {
        Some(DecodeError::WrongSegmentCount(SOF0))
    } else {
        let o = ms[0].offset as int;
        if o + 6 > buf.len() {
            Some(DecodeError::InsufficientData)
        } else if buf[o] != 8 && buf[o] != 16 {
            Some(DecodeError::UnsupportedPrecision)
        } else if component_type_of(buf[o + 5]) is None {
            Some(DecodeError::UnsupportedComponentCount)
        } else if o + 6 + 3 * buf[o + 5] > buf.len() {
            Some(DecodeError::InsufficientData)
        } else {
            None
        }
    }
}

/// The frame header read at `o`: precision, height and width (big-endian),
/// component count, then per component its id, sampling factors
/// (horizontal in the high nibble) and quantization table.
pub open spec fn is_frame_header(buf: Seq<u8>, o: int, h: FrameHeader) -> bool {
    let n = buf[o + 5] as int;
    &&& h.precision == (if buf[o] == 8 {
        SamplePrecision::EightBit
    } else {
        SamplePrecision::SixteenBit
    })
    &&& h.image_height == be16(buf[o + 1], buf[o + 2])
    &&& h.image_width == be16(buf[o + 3], buf[o + 4])
    &&& component_type_of(buf[o + 5]) matches Some((t, _)) && h.component_type == t
    &&& h.components@.len() == n
    &&& forall|i: int|
        0 <= i < n ==> #[trigger] h.components@[i] == (Component {
            component_id: buf[o + 6 + 3 * i],
            horizontal_scaling_factor: buf[o + 7 + 3 * i] >> 4,
            vertical_scaling_factor: buf[o + 7 + 3 * i] & 0x0F,
            qt_table_id: buf[o + 8 + 3 * i],
        })
}

/// Why the scan header is rejected, if it is: this decoder takes scans of
/// exactly three components.
pub open spec fn sos_error(buf: Seq<u8>, ms: Seq<MarLen>) -> Option<DecodeError> {
    if ms.len() == 0 {
        Some(DecodeError::MissingMarker(SOS))
    } else if ms.len() != 1 {
        Some(DecodeError::WrongSegmentCount(SOS))
    } else {
        let o = ms[0].offset as int;
        if o + 1 > buf.len() {
            Some(DecodeError::InsufficientData)
        } else if buf[o] != 3 {
            Some(DecodeError::UnsupportedComponentCount)
        } else if o + 10 > buf.len() {
            Some(DecodeError::InsufficientData)
        } else {
            None
        }
    }
}

/// The scan header read at `o`: three selectors (component id, then DC
/// table in the high nibble and AC table in the low one), then the
/// spectral selection and approximation bytes.
pub open spec fn is_scan_header(buf: Seq<u8>, o: int, h: ScanHeader) -> bool {
    &&& h.encoding_order == EncodingOrder::Interleaved
    &&& h.component_type == ComponentType::Color
    &&& h.scan_component_selectors@.len() == 3
    &&& forall|i: int|
        0 <= i < 3 ==> #[trigger] h.scan_component_selectors@[i] == (ScanComponentSelector {
            component_id: buf[o + 1 + 2 * i],
            dc_destination_id: buf[o + 2 + 2 * i] >> 4,
            ac_destination_id: buf[o + 2 + 2 * i] & 0x0F,
        })
    &&& h.start_of_spectral == buf[o + 7]
    &&& h.end_of_spectral == buf[o + 8]
    &&& h.successive_approx_bit_position_high == buf[o + 9] >> 4
    &&& h.point_transform == buf[o + 9] & 0x0F
}

/// Reads the segments that the marker scan located.
pub struct Parser {
    pub buffer: Vec<u8>,
    pub marlen_map: MarlenMap,
    pub encoding: CodingProcess,
}

impl Parser {
    pub fn new(buffer: Vec<u8>, marlen_map: MarlenMap, encoding: CodingProcess) -> (r: Parser)
        ensures
            r.buffer@ == buffer@,
            r.marlen_map == marlen_map,
            r.encoding == encoding,
    {
        Parser { buffer, marlen_map, encoding }
    }

    /// The payloads recorded for `code`; missing if there are none.
    fn get_marker_segment(&self, code: u8) -> (r: Result<&Vec<MarLen>, DecodeError>)
        ensures
            self.marlen_map.spec_get(code).len() == 0 ==> r == Err::<&Vec<MarLen>, DecodeError>(
                DecodeError::MissingMarker(code),
            ),
            self.marlen_map.spec_get(code).len() > 0 ==> (r matches Ok(v) && v@ == self.marlen_map.spec_get(code)),
    {
        let v = self.marlen_map.get(Marker::new(code));
        if v.len() == 0 {
            Err(DecodeError::MissingMarker(code))
        } else {
            Ok(v)
        }
    }

    /// Reads one Huffman table segment and builds its tree.
    fn parse_huffman_table(&self, m: MarLen) -> (r: Result<HuffmanTree, DecodeError>)
        requires
            m.offset < self.buffer@.len(),
        ensures
            dht_error(self.buffer@, m) is None <==> r is Ok,
            r matches Err(e) ==> dht_error(self.buffer@, m) == Some(e),
            r matches Ok(t) ==> built_from(
                t,
                dht_class(self.buffer@, m),
                dht_destination(self.buffer@, m),
                dht_pairs(self.buffer@, m),
            ),
    {
        let ghost buf = self.buffer@;
        let len = self.buffer.len();
        let o = m.offset;
        if m.length < INFORMATION_BYTES + HUFFMAN_SYM_BYTES || m.length > len - o {
            return Err(DecodeError::InsufficientData);
        }
        let ghost hist = dht_histogram(buf, m);
        let mut flat: Vec<usize> = Vec::new();
        let mut total: usize = 0;
        let mut j: usize = 0;
        proof {
            assert(hist.subrange(0, 0) =~= Seq::<u8>::empty());
        }
        while j < HUFFMAN_SYM_BYTES
            invariant
                buf == self.buffer@,
                len == buf.len(),
                o == m.offset,
                o + 17 <= len,
                hist == dht_histogram(buf, m),
                j <= 16,
                flat@ == flat_lengths(hist.subrange(0, j as int)),
                total == flat@.len(),
                total <= 255 * j,
            decreases 16 - j,
        {
            let count = self.buffer[o + 1 + j];
            let mut c: u8 = 0;
            proof {
                lemma_flat_lengths_len(hist.subrange(0, j as int));
                assert(flat@ + repeat((j + 1) as usize, 0) =~= flat@);
            }
            while c < count
                invariant
                    j < 16,
                    hist.len() == 16,
                    c <= count,
                    total == flat@.len() - c,
                    total <= 255 * j,
                    flat@ == flat_lengths(hist.subrange(0, j as int)) + repeat((j + 1) as usize, c as nat),
                decreases count - c,
            {
                flat.push(j + 1);
                proof {
                    assert(flat_lengths(hist.subrange(0, j as int)) + repeat((j + 1) as usize, (c + 1) as nat)
                        =~= (flat_lengths(hist.subrange(0, j as int)) + repeat((j + 1) as usize, c as nat)).push(
                        (j + 1) as usize,
                    ));
                }
                c = c + 1;
            }
            proof {
                let h1 = hist.subrange(0, j + 1);
                assert(h1.drop_last() =~= hist.subrange(0, j as int));
                assert(h1.last() == count);
                lemma_repeat((j + 1) as usize, count as nat);
            }
            total = total + count as usize;
            j = j + 1;
        }
        proof {
            assert(hist.subrange(0, 16) =~= hist);
            lemma_flat_lengths_len(hist);
        }
        let symbol_count = m.length - (INFORMATION_BYTES + HUFFMAN_SYM_BYTES);
        if symbol_count != total || total == 0 {
            return Err(DecodeError::MalformedHuffmanTable);
        }
        let ghost syms = dht_symbols(buf, m);
        let mut pairs: Vec<(u8, usize)> = Vec::new();
        let mut k: usize = 0;
        while k < total
            invariant
                buf == self.buffer@,
                len == buf.len(),
                o == m.offset,
                o + m.length <= buf.len(),
                m.length >= 17,
                total == m.length - 17,
                syms == dht_symbols(buf, m),
                flat@ == flat_lengths(hist),
                hist == dht_histogram(buf, m),
                flat@.len() == total,
                forall|q: int| 0 <= q < flat@.len() ==> 1 <= #[trigger] flat@[q] <= 16,
                k <= total,
                pairs@.len() == k,
                forall|q: int| 0 <= q < k ==> #[trigger] pairs@[q] == (syms[q], flat@[q]),
                total_weight(pairs@) <= 16 * k,
            decreases total - k,
        {
            let ghost p0 = pairs@;
            pairs.push((self.buffer[o + INFORMATION_BYTES + HUFFMAN_SYM_BYTES + k], flat[k]));
            proof {
                assert(pairs@.drop_last() == p0);
            }
            k = k + 1;
        }
        proof {
            assert(pairs@ =~= dht_pairs(buf, m));
        }
        let info = self.buffer[o];
        let class = (info & 0x10) >> 4;
        proof {
            assert((info & 0x10) >> 4 <= 1) by (bit_vector);
        }
        HuffmanTree::from(class, info & 0x0F, pairs)
    }

    /// Reads the four Huffman table segments, in file order.
    pub fn parse_huffman_trees(&self) -> (r: Result<Vec<HuffmanTree>, DecodeError>)
        ensures
            ({
                let buf = self.buffer@;
                let ms = self.marlen_map.spec_get(DHT);
                &&& huffman_error(buf, ms) is None <==> r is Ok
                &&& r matches Err(e) ==> huffman_error(buf, ms) == Some(e)
                &&& r matches Ok(trees) ==> trees@.len() == 4 && forall|i: int|
                    0 <= i < 4 ==> built_from(
                        #[trigger] trees@[i],
                        dht_class(buf, ms[i]),
                        dht_destination(buf, ms[i]),
                        dht_pairs(buf, ms[i]),
                    )
            }),
    {
        let ghost buf = self.buffer@;
        let ms = self.get_marker_segment(DHT)?;
        let ghost msv = ms@;
        if ms.len() != BASELINE_HUFFMAN_SEGMENTS {
            return Err(DecodeError::WrongSegmentCount(DHT));
        }
        let mut trees: Vec<HuffmanTree> = Vec::new();
        let mut i: usize = 0;
        while i < ms.len()
            invariant
                buf == self.buffer@,
                ms@ == self.marlen_map.spec_get(DHT),
                msv == ms@,
                ms@.len() == 4,
                i <= 4,
                trees@.len() == i,
                forall|q: int| 0 <= q < i ==> (#[trigger] dht_error(buf, ms@[q])) is None,
                forall|q: int|
                    0 <= q < i ==> built_from(
                        #[trigger] trees@[q],
                        dht_class(buf, ms@[q]),
                        dht_destination(buf, ms@[q]),
                        dht_pairs(buf, ms@[q]),
                    ),
            decreases 4 - i,
        {
            let m = ms[i];
            if m.offset >= self.buffer.len() {
                proof {
                    assert(dht_error(buf, ms@[i as int]) == Some(DecodeError::InsufficientData));
                    assert(huffman_error(buf, msv) == Some(DecodeError::InsufficientData)) by {
                        if i > 0 {
                            assert(dht_error(buf, msv[0]) is None);
                        }
                        if i > 1 {
                            assert(dht_error(buf, msv[1]) is None);
                        }
                        if i > 2 {
                            assert(dht_error(buf, msv[2]) is None);
                        }
                    }
                }
                return Err(DecodeError::InsufficientData);
            }
            match self.parse_huffman_table(m) {
                Ok(tree) => {
                    trees.push(tree);
                },
                Err(e) => {
                    proof {
                        assert(dht_error(buf, ms@[i as int]) == Some(e));
                        assert(huffman_error(buf, msv) == Some(e)) by {
                            if i > 0 {
                                assert(dht_error(buf, msv[0]) is None);
                            }
                            if i > 1 {
                                assert(dht_error(buf, msv[1]) is None);
                            }
                            if i > 2 {
                                assert(dht_error(buf, msv[2]) is None);
                            }
                        }
                    }
                    return Err(e);
                },
            }
            i = i + 1;
        }
        proof {
            assert(dht_error(buf, msv[0]) is None);
            assert(dht_error(buf, msv[1]) is None);
            assert(dht_error(buf, msv[2]) is None);
            assert(dht_error(buf, msv[3]) is None);
        }
        Ok(trees)
    }

    /// Reads one quantization table segment.
    fn parse_quant_segment(&self, m: MarLen) -> (r: Result<QuantizationTable, DecodeError>)
        ensures
            dqt_error(self.buffer@, m) is None <==> r is Ok,
            r matches Err(e) ==> dqt_error(self.buffer@, m) == Some(e),
            r matches Ok(t) ==> is_quant_table(self.buffer@, m, t),
    {
        let len = self.buffer.len();
        let o = m.offset;
        if o >= len || len - o < INFORMATION_BYTES + QUANTIZATION_TABLE_BYTES {
            return Err(DecodeError::InsufficientData);
        }
        let info = self.buffer[o];
        if info >> 4 != 0 {
            return Err(DecodeError::UnsupportedPrecision);
        }
        let mut elements: Vec<u8> = Vec::new();
        let mut k: usize = 0;
        while k < QUANTIZATION_TABLE_BYTES
            invariant
                o + 65 <= len,
                len == self.buffer@.len(),
                k <= 64,
                elements@ == self.buffer@.subrange(o + 1, o + 1 + k),
            decreases 64 - k,
        {
            elements.push(self.buffer[o + INFORMATION_BYTES + k]);
            proof {
                assert(elements@ =~= self.buffer@.subrange(o + 1, o + 1 + k + 1));
            }
            k = k + 1;
        }
        Ok(QuantizationTable::from(info & 0x0F, SamplePrecision::EightBit, elements))
    }

    /// Reads the two quantization table segments, in file order.
    pub fn parse_quant_table(&self) -> (r: Result<Vec<QuantizationTable>, DecodeError>)
        ensures
            ({
                let buf = self.buffer@;
                let ms = self.marlen_map.spec_get(DQT);
                &&& quant_error(buf, ms) is None <==> r is Ok
                &&& r matches Err(e) ==> quant_error(buf, ms) == Some(e)
                &&& r matches Ok(tables) ==> tables@.len() == 2 && forall|i: int|
                    0 <= i < 2 ==> is_quant_table(buf, ms[i], #[trigger] tables@[i])
            }),
    {
        let ghost buf = self.buffer@;
        let ms = self.get_marker_segment(DQT)?;
        let ghost msv = ms@;
        if ms.len() != BASELINE_QUANTIZATION_SEGMENTS {
            return Err(DecodeError::WrongSegmentCount(DQT));
        }
        let mut tables: Vec<QuantizationTable> = Vec::new();
        let mut i: usize = 0;
        while i < ms.len()
            invariant
                buf == self.buffer@,
                ms@ == self.marlen_map.spec_get(DQT),
                msv == ms@,
                ms@.len() == 2,
                i <= 2,
                tables@.len() == i,
                forall|q: int| 0 <= q < i ==> (#[trigger] dqt_error(buf, ms@[q])) is None,
                forall|q: int| 0 <= q < i ==> is_quant_table(buf, ms@[q], #[trigger] tables@[q]),
            decreases 2 - i,
        {
            match self.parse_quant_segment(ms[i]) {
                Ok(table) => {
                    tables.push(table);
                },
                Err(e) => {
                    proof {
                        assert(dqt_error(buf, ms@[i as int]) == Some(e));
                        if i > 0 {
                            assert(dqt_error(buf, msv[0]) is None);
                        }
                    }
                    return Err(e);
                },
            }
            i = i + 1;
        }
        proof {
            assert(dqt_error(buf, msv[0]) is None);
            assert(dqt_error(buf, msv[1]) is None);
        }
        Ok(tables)
    }

    /// Reads the frame header of the baseline frame.
    pub fn parse_start_of_frame(&self) -> (r: Result<FrameHeader, DecodeError>)
        ensures
            ({
                let buf = self.buffer@;
                let ms = self.marlen_map.spec_get(SOF0);
                &&& sof_error(buf, ms) is None <==> r is Ok
                &&& r matches Err(e) ==> sof_error(buf, ms) == Some(e)
                &&& r matches Ok(h) ==> is_frame_header(buf, ms[0].offset as int, h)
            }),
    {
        let ghost buf = self.buffer@;
        let ms = self.get_marker_segment(SOF0)?;
        if ms.len() != 1 {
            return Err(DecodeError::WrongSegmentCount(SOF0));
        }
        let len = self.buffer.len();
        let o = ms[0].offset;
        if o >= len || len - o < 6 {
            return Err(DecodeError::InsufficientData);
        }
        let precision = match SamplePrecision::parse(self.buffer[o]) {
            Some(p) => p,
            None => {
                return Err(DecodeError::UnsupportedPrecision);
            },
        };
        let image_height = (self.buffer[o + 1] as usize) * 256 + self.buffer[o + 2] as usize;
        let image_width = (self.buffer[o + 3] as usize) * 256 + self.buffer[o + 4] as usize;
        let n = self.buffer[o + 5];
        let component_type = match ComponentType::from(n) {
            Some((t, _)) => t,
            None => {
                return Err(DecodeError::UnsupportedComponentCount);
            },
        };
        if len - (o + 6) < 3 * (n as usize) {
            return Err(DecodeError::InsufficientData);
        }
        let mut components: Vec<Component> = Vec::new();
        let mut i: usize = 0;
        while i < n as usize
            invariant
                buf == self.buffer@,
                len == buf.len(),
                o + 6 + 3 * n <= len,
                i <= n,
                components@.len() == i,
                forall|q: int|
                    0 <= q < i ==> #[trigger] components@[q] == (Component {
                        component_id: buf[o + 6 + 3 * q],
                        horizontal_scaling_factor: buf[o + 7 + 3 * q] >> 4,
                        vertical_scaling_factor: buf[o + 7 + 3 * q] & 0x0F,
                        qt_table_id: buf[o + 8 + 3 * q],
                    }),
            decreases n - i,
        {
            let at = o + 6 + 3 * i;
            let sampling = self.buffer[at + 1];
            components.push(
                Component::from(self.buffer[at], sampling >> 4, sampling & 0x0F, self.buffer[at + 2]),
            );
            i = i + 1;
        }
        Ok(FrameHeader { precision, image_height, image_width, component_type, components })
    }

    /// Reads the scan header; also returns where the entropy-coded data
    /// begins, just past the header's three spectral-selection bytes.
    pub fn parse_start_of_scan(&self) -> (r: Result<(ScanHeader, usize), DecodeError>)
        ensures
            ({
                let buf = self.buffer@;
                let ms = self.marlen_map.spec_get(SOS);
                &&& sos_error(buf, ms) is None <==> r is Ok
                &&& r matches Err(e) ==> sos_error(buf, ms) == Some(e)
                &&& r matches Ok((h, next)) ==> is_scan_header(buf, ms[0].offset as int, h) && next
                    == ms[0].offset + 10
            }),
    {
        let ghost buf = self.buffer@;
        let ms = self.get_marker_segment(SOS)?;
        if ms.len() != 1 {
            return Err(DecodeError::WrongSegmentCount(SOS));
        }
        let len = self.buffer.len();
        let o = ms[0].offset;
        if o >= len {
            return Err(DecodeError::InsufficientData);
        }
        if self.buffer[o] != 3 {
            return Err(DecodeError::UnsupportedComponentCount);
        }
        if len - o < 10 {
            return Err(DecodeError::InsufficientData);
        }
        let mut selectors: Vec<ScanComponentSelector> = Vec::new();
        let mut i: usize = 0;
        while i < 3
            invariant
                buf == self.buffer@,
                len == buf.len(),
                o + 10 <= buf.len(),
                i <= 3,
                selectors@.len() == i,
                forall|q: int|
                    0 <= q < i ==> #[trigger] selectors@[q] == (ScanComponentSelector {
                        component_id: buf[o + 1 + 2 * q],
                        dc_destination_id: buf[o + 2 + 2 * q] >> 4,
                        ac_destination_id: buf[o + 2 + 2 * q] & 0x0F,
                    }),
            decreases 3 - i,
        {
            let at = o + 1 + 2 * i;
            let tables = self.buffer[at + 1];
            selectors.push(ScanComponentSelector::from(self.buffer[at], tables >> 4, tables & 0x0F));
            i = i + 1;
        }
        let approx = self.buffer[o + 9];
        let header = ScanHeader {
            encoding_order: EncodingOrder::Interleaved,
            component_type: ComponentType::Color,
            scan_component_selectors: selectors,
            start_of_spectral: self.buffer[o + 7],
            end_of_spectral: self.buffer[o + 8],
            successive_approx_bit_position_high: approx >> 4,
            point_transform: approx & 0x0F,
        };
        Ok((header, o + 10))
    }

    /// The entropy-coded data from `start` up to the end-of-image marker
    /// that closes the buffer, with byte stuffing removed.
    pub fn parse_image_data(&self, start: usize) -> (r: Result<Vec<u8>, DecodeError>)
        ensures
            self.buffer@.len() < 2 || start > self.buffer@.len() - 2 ==> r == Err::<Vec<u8>, DecodeError>(
                DecodeError::InsufficientData,
            ),
            self.buffer@.len() >= 2 && start <= self.buffer@.len() - 2 ==> (r matches Ok(v) && v@ == unstuff(
                self.buffer@.subrange(start as int, self.buffer@.len() - 2),
            )),
    {
        let len = self.buffer.len();
        if len < Marker::SIZE || start > len - Marker::SIZE {
            return Err(DecodeError::InsufficientData);
        }
        let data = &self.buffer.as_slice()[start..len - Marker::SIZE];
        Ok(sanitize(data))
    }
}

} // verus!
