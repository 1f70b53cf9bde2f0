use vstd::prelude::*;

use crate::error::DecodeError;
use crate::marker::{is_marker_code, repeatable, standalone, Marker, MarkerType, EOI, GLOBAL, SOI};

verus! {

/// Where a marker's payload lies: the offset just past its length field
/// (just past the marker, for one that stands alone) and the payload's
/// length, the length field excluded.
#[derive(Debug, Clone, Copy, PartialEq, Eq, Structural)]
pub struct MarLen {
    pub offset: usize,
    pub length: usize,
}

/// A big-endian 16-bit value.
pub open spec fn be16(hi: u8, lo: u8) -> int {
    hi as int * 256 + lo as int
}

/// The bytes at `p` and `p + 1` are the prefix and a marker code.
pub open spec fn marker_at(buf: Seq<u8>, p: int, code: u8) -> bool {
    &&& 0 <= p
    &&& p + 1 < buf.len()
    &&& buf[p] == GLOBAL
    &&& buf[p + 1] == code
    &&& is_marker_code(code)
}

/// The payload of the `code` marker at `p`.
pub open spec fn marlen_at(buf: Seq<u8>, p: int, code: u8) -> MarLen {
    if standalone(code) {
        MarLen { offset: (p + 2) as usize, length: 0 }
    } else {
        MarLen { offset: (p + 4) as usize, length: (be16(buf[p + 2], buf[p + 3]) - 2) as usize }
    }
}

/// The payloads that a scan of the first `n` positions records for `code`,
/// in file order: every occurrence, or only the first for a marker that
/// may occur once.
pub open spec fn marlens(buf: Seq<u8>, code: u8, n: int) -> Seq<MarLen>
    decreases n,
{
    if n <= 0 {
        Seq::empty()
    } else {
        let prev = marlens(buf, code, n - 1);
        if marker_at(buf, n - 1, code) && (repeatable(code) || prev.len() == 0) {
            prev.push(marlen_at(buf, n - 1, code))
        } else {
            prev
        }
    }
}

/// The `code` marker at `p` is recorded: the marker may repeat, or no
/// earlier one was recorded.
pub open spec fn recorded_at(buf: Seq<u8>, p: int, code: u8) -> bool {
    &&& marker_at(buf, p, code)
    &&& (repeatable(code) || marlens(buf, code, p).len() == 0)
}

/// A stand-alone marker, or a segment whose length field and payload lie
/// inside the buffer.
pub open spec fn segment_fits(buf: Seq<u8>, p: int, code: u8) -> bool {
    standalone(code) || (p + 3 < buf.len() && be16(buf[p + 2], buf[p + 3]) >= 2 && p + 2 + be16(
        buf[p + 2],
        buf[p + 3],
    ) <= buf.len())
}

/// Every recorded segment lies inside the buffer.
pub open spec fn scan_ok(buf: Seq<u8>) -> bool {
    forall|p: int|
        0 <= p < buf.len() - 1 && #[trigger] recorded_at(buf, p, buf[p + 1]) ==> segment_fits(
            buf,
            p,
            buf[p + 1],
        )
}

/// For each marker code, the payloads of its segments in file order.
pub struct MarlenMap {
    lists: Vec<Vec<MarLen>>,
}

impl MarlenMap {
    #[verifier::type_invariant]
    spec fn wf(self) -> bool {
        self.lists@.len() == 256
    }

    /// The payloads recorded for `code`.
    pub closed spec fn spec_get(self, code: u8) -> Seq<MarLen> {
        self.lists@[code as int]@
    }

    /// A map with no payload for any marker.
    pub fn new() -> (r: MarlenMap)
        ensures
            forall|c: u8| #[trigger] r.spec_get(c).len() == 0,
    {
        let mut lists: Vec<Vec<MarLen>> = Vec::new();
        let mut i: usize = 0;
        while i < 256
            invariant
                i <= 256,
                lists@.len() == i,
                forall|c: int| 0 <= c < i ==> (#[trigger] lists@[c])@.len() == 0,
            decreases 256 - i,
        {
            lists.push(Vec::new());
            i = i + 1;
        }
        MarlenMap { lists }
    }

    pub fn get(&self, marker: Marker) -> (r: &Vec<MarLen>)
        ensures
            r@ == self.spec_get(marker.code),
    {
        proof {
            use_type_invariant(self);
        }
        &self.lists[marker.code as usize]
    }

    /// Appends a payload to the list of `marker`.
    pub fn push(&mut self, marker: Marker, marlen: MarLen)
        ensures
            final(self).spec_get(marker.code) == old(self).spec_get(marker.code).push(marlen),
            forall|c: u8| c != marker.code ==> #[trigger] final(self).spec_get(c) == old(self).spec_get(c),
    {
        proof {
            use_type_invariant(&*self);
        }
        self.lists[marker.code as usize].push(marlen);
    }
}

/// Checks that the buffer opens with the start-of-image marker immediately
/// followed by the prefix of the next marker.
pub fn check_start_of_image(buf: &Vec<u8>) -> (r: Result<(), DecodeError>)
    ensures
        r is Ok <==> starts_with_soi(buf@),
        r is Err ==> r == Err::<(), DecodeError>(DecodeError::MissingStartOfImage),
{
    if buf.len() >= 3 && buf[0] == GLOBAL && buf[1] == SOI && buf[2] == GLOBAL {
        Ok(())
    } else {
        Err(DecodeError::MissingStartOfImage)
    }
}

pub open spec fn starts_with_soi(buf: Seq<u8>) -> bool {
    buf.len() >= 3 && buf[0] == GLOBAL && buf[1] == SOI && buf[2] == GLOBAL
}

/// Finds every marker of the buffer and records the payload of each, as
/// `marlens` states; fails if a recorded segment runs past the buffer.
pub fn scan_markers(buf: &Vec<u8>) -> (r: Result<MarlenMap, DecodeError>)
    ensures
        r is Ok <==> scan_ok(buf@),
        r is Err ==> r matches Err(DecodeError::SegmentOutOfBounds),
        r matches Ok(m) ==> forall|c: u8| #[trigger] m.spec_get(c) == marlens(buf@, c, buf@.len() as int),
{
    let len = buf.len();
    let mut map = MarlenMap::new();
    let mut p: usize = 0;
    while p < len
        invariant
            len == buf@.len(),
            p <= len,
            forall|c: u8| #[trigger] map.spec_get(c) == marlens(buf@, c, p as int),
            forall|q: int|
                0 <= q < p && q < buf@.len() - 1 && #[trigger] recorded_at(buf@, q, buf@[q + 1]) ==> segment_fits(
                    buf@,
                    q,
                    buf@[q + 1],
                ),
        decreases len - p,
    {
        let ghost map0 = map;
        if p + 1 < len && buf[p] == GLOBAL && buf[p + 1] != GLOBAL && buf[p + 1] != 0 {
            let code = buf[p + 1];
            let marker = Marker::new(code);
            proof {
                assert(marker_at(buf@, p as int, code));
            }
            if !marker.singleton() || map.get(marker).len() == 0 {
                proof {
                    assert(recorded_at(buf@, p as int, code));
                }
                let marlen = match marker.is_segment() {
                    MarkerType::StandAlone => MarLen { offset: p + 2, length: 0 },
                    MarkerType::Segment => {
                        if len - p <= 3 {
                            return Err(DecodeError::SegmentOutOfBounds);
                        }
                        let declared = (buf[p + 2] as usize) * 256 + buf[p + 3] as usize;
                        if declared < 2 || declared > len - (p + 2) {
                            return Err(DecodeError::SegmentOutOfBounds);
                        }
                        MarLen { offset: p + 4, length: declared - 2 }
                    },
                };
                proof {
                    assert(marlen == marlen_at(buf@, p as int, code));
                }
                map.push(marker, marlen);
                proof {
                    assert(marlens(buf@, code, p + 1) == marlens(buf@, code, p as int).push(marlen));
                }
            } else {
                proof {
                    assert(!recorded_at(buf@, p as int, code));
                    assert(marlens(buf@, code, p + 1) == marlens(buf@, code, p as int));
                }
            }
            proof {
                assert forall|c: u8| #[trigger] map.spec_get(c) == marlens(buf@, c, p + 1) by {
                    if c != code {
                        assert(!marker_at(buf@, p as int, c));
                    }
                }
            }
        } else {
            proof {
                assert forall|c: u8| #[trigger] map.spec_get(c) == marlens(buf@, c, p + 1) by {
                    assert(!marker_at(buf@, p as int, c));
                }
            }
        }
        p = p + 1;
    }
    Ok(map)
}

/// The start-of-image marker is recorded once, with its payload right after
/// the two marker bytes; the end-of-image marker is recorded once, with its
/// (empty) payload at the very end of the buffer.
pub open spec fn boundaries_ok(buf: Seq<u8>) -> bool {
    let soi = marlens(buf, SOI, buf.len() as int);
    let eoi = marlens(buf, EOI, buf.len() as int);
    &&& soi.len() == 1
    &&& soi[0].offset == Marker::SIZE
    &&& eoi.len() == 1
    &&& eoi[0].offset == buf.len()
}

/// A marker that may occur once is recorded at most once.
pub proof fn lemma_singleton_recorded_once(buf: Seq<u8>, code: u8, n: int)
    requires
        !repeatable(code),
    ensures
        marlens(buf, code, n).len() <= 1,
    decreases n,
{
    if n > 0 {
        lemma_singleton_recorded_once(buf, code, n - 1);
    }
}

/// In a buffer that opens with the start-of-image marker, the scan records
/// that marker exactly once, with its payload right after the two marker
/// bytes.
pub proof fn lemma_soi_recorded_first(buf: Seq<u8>, n: int)
    requires
        starts_with_soi(buf),
        1 <= n,
    ensures
        marlens(buf, SOI, n) == seq![MarLen { offset: 2, length: 0 }],
    decreases n,
{
    if n == 1 {
        assert(marker_at(buf, 0, SOI));
        assert(marlens(buf, SOI, 0) == Seq::<MarLen>::empty());
        assert(marlens(buf, SOI, 1) =~= seq![MarLen { offset: 2, length: 0 }]);
    } else {
        lemma_soi_recorded_first(buf, n - 1);
    }
}

/// Validates the buffer's frame and finds its markers: the buffer must open
/// with the start-of-image marker, every recorded segment must fit, and the
/// end-of-image marker must close the buffer.
pub fn read_markers(buf: &Vec<u8>) -> (r: Result<MarlenMap, DecodeError>)
    ensures
        r is Ok <==> starts_with_soi(buf@) && scan_ok(buf@) && boundaries_ok(buf@),
        !starts_with_soi(buf@) ==> r matches Err(DecodeError::MissingStartOfImage),
        starts_with_soi(buf@) && !scan_ok(buf@) ==> r matches Err(DecodeError::SegmentOutOfBounds),
        starts_with_soi(buf@) && scan_ok(buf@) && !boundaries_ok(buf@) ==> r matches Err(
            DecodeError::MisplacedBoundaryMarker,
        ),
        r matches Ok(m) ==> (forall|c: u8| #[trigger] m.spec_get(c) == marlens(buf@, c, buf@.len() as int))
            && m.spec_get(SOI).len() == 1 && m.spec_get(SOI)[0].offset == 2 && m.spec_get(EOI).len() == 1
            && m.spec_get(EOI)[0].offset == buf@.len(),
{
    check_start_of_image(buf)?;
    let map = scan_markers(buf)?;
    let soi = map.get(Marker::new(SOI));
    let eoi = map.get(Marker::new(EOI));
    if soi.len() != 1 || eoi.len() != 1 {
        return Err(DecodeError::MisplacedBoundaryMarker);
    }
    if soi[0].offset != Marker::SIZE || eoi[0].offset != buf.len() {
        return Err(DecodeError::MisplacedBoundaryMarker);
    }
    Ok(map)
}

} // verus!
