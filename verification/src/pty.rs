//! Replies the front-end owes the hosted terminal child.

use vstd::prelude::*;

verus! {

/// The cursor-position query `ESC [ 6 n`.
pub open spec fn dsr_query() -> Seq<u8> {
    seq![0x1bu8, 0x5bu8, 0x36u8, 0x6eu8]
}

/// The fixed reply `ESC [ 1 ; 1 R` (nothing tracks the real cursor).
pub open spec fn dsr_answer() -> Seq<u8> {
    seq![0x1bu8, 0x5bu8, 0x31u8, 0x3bu8, 0x31u8, 0x52u8]
}

/// The reply bytes.
pub const DSR_ANSWER: [u8; 6] = [0x1b, 0x5b, 0x31, 0x3b, 0x31, 0x52];

/// `chunk` holds the cursor-position query somewhere.
pub open spec fn has_dsr_query(chunk: Seq<u8>) -> bool {
    exists|i: int| 0 <= i && i + 4 <= chunk.len() && #[trigger] chunk.subrange(i, i + 4) == dsr_query()
}

/// Answer ConPTY's `ESC[6n` cursor query (it withholds child output until replied): the fixed
/// reply `ESC[1;1R` when `chunk` holds the whole query, else `None`.
pub fn dsr_reply(chunk: &[u8]) -> (r: Option<&'static [u8]>)
    ensures
        has_dsr_query(chunk@) ==> (r matches Some(v) && v@ == dsr_answer()),
        !has_dsr_query(chunk@) ==> r is None,
{
    let n = chunk.len();
    let mut i: usize = 0;
    while n >= 4 && i <= n - 4
        invariant
            n == chunk@.len(),
            i <= n,
            forall|j: int| 0 <= j < i && j + 4 <= n ==> #[trigger] chunk@.subrange(j, j + 4) != dsr_query(),
        decreases n - i,
    {
        if chunk[i] == 0x1b && chunk[i + 1] == 0x5b && chunk[i + 2] == 0x36 && chunk[i + 3] == 0x6e {
            proof {
                assert(chunk@.subrange(i as int, i + 4) =~= dsr_query());
            }
            let v: &'static [u8] = &DSR_ANSWER;
            assert(v@ =~= dsr_answer());
            return Some(v);
        }
        proof {
            if chunk@.subrange(i as int, i + 4) == dsr_query() {
                assert(chunk@.subrange(i as int, i + 4)[0] == chunk@[i as int]);
                assert(chunk@.subrange(i as int, i + 4)[1] == chunk@[i + 1]);
                assert(chunk@.subrange(i as int, i + 4)[2] == chunk@[i + 2]);
                assert(chunk@.subrange(i as int, i + 4)[3] == chunk@[i + 3]);
            }
        }
        i = i + 1;
    }
    None
}

/// The scrollback offset after scrolling `delta` rows from `cur`: into history for a positive
/// `delta`, toward the live view for a negative one, never past live (offset 0).
pub fn scroll_target(cur: usize, delta: isize) -> (r: usize)
    requires
        cur <= isize::MAX,
        isize::MIN <= cur + delta <= isize::MAX,
    ensures
        r == (if cur + delta > 0 { cur + delta } else { 0 }),
{
    let t: isize = cur as isize + delta;
    if t > 0 { t as usize } else { 0 }
}

} // verus!
