use vstd::prelude::*;

use crate::error::DecodeError;
use crate::quantization_table::QuantizationTable;

verus! {

/// The 64 dequantized coefficients of one component of a block, in raster
/// order.
pub struct Block {
    pub coefficients: Vec<u16>,
}

/// The index of the last table installed for component `id`.
pub open spec fn find_table(map: Seq<(u8, QuantizationTable)>, id: u8) -> Option<int>
    decreases map.len(),
{
    if map.len() == 0 {
        None
    } else if map.last().0 == id {
        Some(map.len() - 1)
    } else {
        find_table(map.drop_last(), id)
    }
}

pub proof fn lemma_find_table_bound(map: Seq<(u8, QuantizationTable)>, id: u8)
    ensures
        find_table(map, id) matches Some(t) ==> 0 <= t < map.len() && map[t].0 == id,
    decreases map.len(),
{
    if map.len() > 0 {
        lemma_find_table_bound(map.drop_last(), id);
    }
}

/// The values of the table for component `id`.
pub open spec fn table_for(map: Seq<(u8, QuantizationTable)>, id: u8) -> Seq<u8> {
    map[find_table(map, id)->0].1.quantization_table_element@
}

/// Why dequantization fails, if it does: the scan names three components,
/// each has a table of 64 values, and each block holds 64 triples.
pub open spec fn dequantize_error(
    data: Seq<Vec<(u8, u8, u8)>>,
    order: Seq<u8>,
    map: Seq<(u8, QuantizationTable)>,
) -> Option<DecodeError> {
    if order.len() != 3 {
        Some(DecodeError::UnsupportedComponentCount)
    } else if find_table(map, order[0]) is None || find_table(map, order[1]) is None || find_table(
        map,
        order[2],
    ) is None {
        Some(DecodeError::MissingQuantizationTable)
    } else if table_for(map, order[0]).len() != 64 || table_for(map, order[1]).len() != 64 || table_for(
        map,
        order[2],
    ).len() != 64 {
        Some(DecodeError::InsufficientData)
    } else if exists|b: int| 0 <= b < data.len() && (#[trigger] data[b])@.len() != 64 {
        Some(DecodeError::InsufficientData)
    } else {
        None
    }
}

/// `out` is `block` with each component multiplied element-wise by the
/// values of its table.
pub open spec fn dequantized(
    block: Seq<(u8, u8, u8)>,
    q0: Seq<u8>,
    q1: Seq<u8>,
    q2: Seq<u8>,
    out: (Block, Block, Block),
) -> bool {
    &&& out.0.coefficients@.len() == 64
    &&& out.1.coefficients@.len() == 64
    &&& out.2.coefficients@.len() == 64
    &&& forall|i: int|
        0 <= i < 64 ==> #[trigger] out.0.coefficients@[i] == block[i].0 as int * q0[i] as int
            && out.1.coefficients@[i] == block[i].1 as int * q1[i] as int && out.2.coefficients@[i]
            == block[i].2 as int * q2[i] as int
}

/// Scales the blocks of a scan by the quantization table of each of its
/// components.
pub struct Dequantizer {
    pub data: Vec<Vec<(u8, u8, u8)>>,
    pub cursor: usize,
    pub scan_component_order: Vec<u8>,
    pub quantization_table_map: Vec<(u8, QuantizationTable)>,
}

fn scale(block: &Vec<(u8, u8, u8)>, q0: &Vec<u8>, q1: &Vec<u8>, q2: &Vec<u8>) -> (r: (Block, Block, Block))
    requires
        block@.len() == 64,
        q0@.len() == 64,
        q1@.len() == 64,
        q2@.len() == 64,
    ensures
        dequantized(block@, q0@, q1@, q2@, r),
{
    let mut c0: Vec<u16> = Vec::new();
    let mut c1: Vec<u16> = Vec::new();
    let mut c2: Vec<u16> = Vec::new();
    let mut i: usize = 0;
    while i < 64
        invariant
            block@.len() == 64,
            q0@.len() == 64,
            q1@.len() == 64,
            q2@.len() == 64,
            i <= 64,
            c0@.len() == i,
            c1@.len() == i,
            c2@.len() == i,
            forall|j: int|
                0 <= j < i ==> #[trigger] c0@[j] == block@[j].0 as int * q0@[j] as int && c1@[j]
                    == block@[j].1 as int * q1@[j] as int && c2@[j] == block@[j].2 as int * q2@[j] as int,
        decreases 64 - i,
    {
        let (a, b, c) = block[i];
        proof {
            assert(a as int * q0@[i as int] as int <= 255 * 255) by (nonlinear_arith)
                requires
                    a <= 255,
                    q0@[i as int] <= 255,
            ;
            assert(b as int * q1@[i as int] as int <= 255 * 255) by (nonlinear_arith)
                requires
                    b <= 255,
                    q1@[i as int] <= 255,
            ;
            assert(c as int * q2@[i as int] as int <= 255 * 255) by (nonlinear_arith)
                requires
                    c <= 255,
                    q2@[i as int] <= 255,
            ;
        }
        c0.push(a as u16 * q0[i] as u16);
        c1.push(b as u16 * q1[i] as u16);
        c2.push(c as u16 * q2[i] as u16);
        i = i + 1;
    }
    (Block { coefficients: c0 }, Block { coefficients: c1 }, Block { coefficients: c2 })
}

fn find_table_index(map: &Vec<(u8, QuantizationTable)>, id: u8) -> (r: Option<usize>)
    ensures
        r matches Some(t) ==> find_table(map@, id) == Some(t as int),
        r is None ==> find_table(map@, id) is None,
{
    let mut i = map.len();
    proof {
        assert(map@.subrange(0, i as int) =~= map@);
    }
    while i > 0
        invariant
            i <= map@.len(),
            find_table(map@, id) == find_table(map@.subrange(0, i as int), id),
        decreases i,
    {
        proof {
            assert(map@.subrange(0, i as int).drop_last() =~= map@.subrange(0, i - 1));
        }
        if map[i - 1].0 == id {
            return Some(i - 1);
        }
        i = i - 1;
    }
    None
}

impl Dequantizer {
    pub fn new(
        data: Vec<Vec<(u8, u8, u8)>>,
        scan_component_order: Vec<u8>,
        quantization_table_map: Vec<(u8, QuantizationTable)>,
    ) -> (r: Dequantizer)
        ensures
            r.data@ == data@,
            r.cursor == 0,
            r.scan_component_order@ == scan_component_order@,
            r.quantization_table_map@ == quantization_table_map@,
    {
        Dequantizer { data, cursor: 0, scan_component_order, quantization_table_map }
    }

    /// Multiplies each block's components, in scan order, by the tables of
    /// the scan's components.
    pub fn dequantize(&mut self) -> (r: Result<Vec<(Block, Block, Block)>, DecodeError>)
        ensures
            ({
                let data = old(self).data@;
                let order = old(self).scan_component_order@;
                let map = old(self).quantization_table_map@;
                &&& dequantize_error(data, order, map) is None <==> r is Ok
                &&& r matches Err(e) ==> dequantize_error(data, order, map) == Some(e)
                &&& r matches Ok(out) ==> out@.len() == data.len() && forall|b: int|
                    0 <= b < data.len() ==> dequantized(
                        data[b]@,
                        table_for(map, order[0]),
                        table_for(map, order[1]),
                        table_for(map, order[2]),
                        #[trigger] out@[b],
                    )
            }),
    {
        let ghost data = self.data@;
        let ghost map = self.quantization_table_map@;
        if self.scan_component_order.len() != 3 {
            return Err(DecodeError::UnsupportedComponentCount);
        }
        let t0 = find_table_index(&self.quantization_table_map, self.scan_component_order[0]);
        let t1 = find_table_index(&self.quantization_table_map, self.scan_component_order[1]);
        let t2 = find_table_index(&self.quantization_table_map, self.scan_component_order[2]);
        let (t0, t1, t2) = match (t0, t1, t2) {
            (Some(a), Some(b), Some(c)) => (a, b, c),
            _ => {
                return Err(DecodeError::MissingQuantizationTable);
            },
        };
        proof {
            lemma_find_table_bound(map, self.scan_component_order@[0]);
            lemma_find_table_bound(map, self.scan_component_order@[1]);
            lemma_find_table_bound(map, self.scan_component_order@[2]);
        }
        let q0 = &self.quantization_table_map[t0].1.quantization_table_element;
        let q1 = &self.quantization_table_map[t1].1.quantization_table_element;
        let q2 = &self.quantization_table_map[t2].1.quantization_table_element;
        if q0.len() != 64 || q1.len() != 64 || q2.len() != 64 {
            return Err(DecodeError::InsufficientData);
        }
        let mut out: Vec<(Block, Block, Block)> = Vec::new();
        let mut b: usize = 0;
        while b < self.data.len()
            invariant
                data == self.data@,
                map == self.quantization_table_map@,
                self.scan_component_order@.len() == 3,
                self.scan_component_order@ == old(self).scan_component_order@,
                find_table(map, self.scan_component_order@[0]) is Some,
                find_table(map, self.scan_component_order@[1]) is Some,
                find_table(map, self.scan_component_order@[2]) is Some,
                q0@ == table_for(map, self.scan_component_order@[0]),
                q1@ == table_for(map, self.scan_component_order@[1]),
                q2@ == table_for(map, self.scan_component_order@[2]),
                q0@.len() == 64,
                q1@.len() == 64,
                q2@.len() == 64,
                b <= data.len(),
                out@.len() == b,
                forall|q: int| 0 <= q < b ==> (#[trigger] data[q])@.len() == 64,
                forall|q: int|
                    0 <= q < b ==> dequantized(
                        data[q]@,
                        q0@,
                        q1@,
                        q2@,
                        #[trigger] out@[q],
                    ),
            decreases data.len() - b,
        {
            let block = &self.data[b];
            if block.len() != 64 {
                proof {
                    assert((data[b as int])@.len() != 64);
                }
                return Err(DecodeError::InsufficientData);
            }
            out.push(scale(block, q0, q1, q2));
            b = b + 1;
        }
        self.cursor = b;
        Ok(out)
    }
}

} // verus!
