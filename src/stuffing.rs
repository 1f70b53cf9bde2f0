use vstd::prelude::*;

use crate::marker::{GLOBAL, STUFF};

verus! {

/// The entropy-coded bytes with stuffing removed: each `0xFF` that is
/// immediately followed by `0x00` stands for one `0xFF`; every other byte
/// stands for itself.
pub open spec fn unstuff(s: Seq<u8>) -> Seq<u8>
    decreases s.len(),
{
    if s.len() == 0 {
        Seq::empty()
    } else if s.len() >= 2 && s[0] == GLOBAL && s[1] == STUFF {
        seq![GLOBAL].add(unstuff(s.subrange(2, s.len() as int)))
    } else {
        seq![s[0]].add(unstuff(s.subrange(1, s.len() as int)))
    }
}

/// Byte stuffing as an encoder applies it: a `0x00` after every `0xFF`.
pub open spec fn stuff(s: Seq<u8>) -> Seq<u8>
    decreases s.len(),
{
    if s.len() == 0 {
        Seq::empty()
    } else if s[0] == GLOBAL {
        seq![GLOBAL, STUFF].add(stuff(s.subrange(1, s.len() as int)))
    } else {
        seq![s[0]].add(stuff(s.subrange(1, s.len() as int)))
    }
}

/// Every `0xFF` is followed by `0x00`.
pub open spec fn is_stuffed(s: Seq<u8>) -> bool {
    forall|i: int| 0 <= i < s.len() && #[trigger] s[i] == GLOBAL ==> i + 1 < s.len() && s[i + 1] == STUFF
}

/// No `0xFF` is followed by `0x00`.
pub open spec fn has_no_stuffing(s: Seq<u8>) -> bool {
    forall|i: int| 0 <= i < s.len() - 1 && #[trigger] s[i] == GLOBAL ==> s[i + 1] != STUFF
}

/// Removing stuffing from a stuffed sequence and stuffing the result again
/// gives back the sequence.
pub proof fn lemma_restuff_round_trip(s: Seq<u8>)
    requires
        is_stuffed(s),
    ensures
        stuff(unstuff(s)) == s,
    decreases s.len(),
{
    if s.len() > 0 {
        if s[0] == GLOBAL {
            let rest = s.subrange(2, s.len() as int);
            assert(is_stuffed(rest)) by {
                assert forall|i: int| 0 <= i < rest.len() && #[trigger] rest[i] == GLOBAL implies i + 1
                    < rest.len() && rest[i + 1] == STUFF by {
                    assert(s[i + 2] == GLOBAL);
                }
            }
            lemma_restuff_round_trip(rest);
            let u = seq![GLOBAL].add(unstuff(rest));
            assert(u[0] == GLOBAL);
            assert(u.subrange(1, u.len() as int) =~= unstuff(rest));
            assert(stuff(u) =~= s);
        } else {
            let rest = s.subrange(1, s.len() as int);
            assert(is_stuffed(rest)) by {
                assert forall|i: int| 0 <= i < rest.len() && #[trigger] rest[i] == GLOBAL implies i + 1
                    < rest.len() && rest[i + 1] == STUFF by {
                    assert(s[i + 1] == GLOBAL);
                }
            }
            lemma_restuff_round_trip(rest);
            let u = seq![s[0]].add(unstuff(rest));
            assert(u.subrange(1, u.len() as int) =~= unstuff(rest));
            assert(stuff(u) =~= s);
        }
    }
}

/// Stuffing any sequence and then removing the stuffing gives it back.
pub proof fn lemma_unstuff_after_stuff(s: Seq<u8>)
    ensures
        unstuff(stuff(s)) == s,
    decreases s.len(),
{
    if s.len() > 0 {
        let rest = s.subrange(1, s.len() as int);
        lemma_unstuff_after_stuff(rest);
        let t = stuff(s);
        if s[0] == GLOBAL {
            assert(t.subrange(2, t.len() as int) =~= stuff(rest));
        } else {
            assert(t.subrange(1, t.len() as int) =~= stuff(rest));
        }
        assert(unstuff(t) =~= s);
    }
}

/// Removing stuffing changes nothing in a sequence that holds none.
pub proof fn lemma_unstuff_identity(s: Seq<u8>)
    requires
        has_no_stuffing(s),
    ensures
        unstuff(s) == s,
    decreases s.len(),
{
    if s.len() > 0 {
        let rest = s.subrange(1, s.len() as int);
        assert(has_no_stuffing(rest)) by {
            assert forall|i: int| 0 <= i < rest.len() - 1 && #[trigger] rest[i] == GLOBAL implies rest[i
                + 1] != STUFF by {
                assert(s[i + 1] == GLOBAL);
            }
        }
        lemma_unstuff_identity(rest);
        if s.len() >= 2 && s[0] == GLOBAL {
            assert(s[1] != STUFF);
        }
        assert(unstuff(s) =~= s);
    }
}

/// Removing stuffing a second time changes nothing when the first pass
/// left no `0xFF` followed by `0x00`.
pub proof fn lemma_unstuff_idempotent(s: Seq<u8>)
    requires
        has_no_stuffing(unstuff(s)),
    ensures
        unstuff(unstuff(s)) == unstuff(s),
{
    lemma_unstuff_identity(unstuff(s));
}

/// Strips byte stuffing from entropy-coded data, scanning left to right:
/// an `0xFF` followed by `0x00` gives `0xFF` and skips both bytes, any other
/// byte is kept.
pub fn sanitize(data: &[u8]) -> (r: Vec<u8>)
    ensures
        r@ == unstuff(data@),
{
    let len = data.len();
    let mut out: Vec<u8> = Vec::new();
    let mut i: usize = 0;
    proof {
        assert(data@.subrange(0, len as int) =~= data@);
    }
    while i < len
        invariant
            len == data@.len(),
            i <= len,
            out@ + unstuff(data@.subrange(i as int, len as int)) == unstuff(data@),
        decreases len - i,
    {
        let ghost rest = data@.subrange(i as int, len as int);
        if i + 1 < len && data[i] == GLOBAL && data[i + 1] == STUFF {
            out.push(GLOBAL);
            proof {
                assert(rest.subrange(2, rest.len() as int) =~= data@.subrange(i + 2, len as int));
                assert(out@ + unstuff(data@.subrange(i + 2, len as int)) =~= unstuff(data@));
            }
            i = i + 2;
        } else {
            out.push(data[i]);
            proof {
                assert(rest.subrange(1, rest.len() as int) =~= data@.subrange(i + 1, len as int));
                assert(out@ + unstuff(data@.subrange(i + 1, len as int)) =~= unstuff(data@));
            }
            i = i + 1;
        }
    }
    proof {
        assert(data@.subrange(len as int, len as int) =~= Seq::<u8>::empty());
        assert(out@ + Seq::<u8>::empty() =~= out@);
    }
    out
}

} // verus!
