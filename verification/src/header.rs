use vstd::prelude::*;

use crate::errors::NodeError;

verus! {

/// The byte value of carriage return.
pub const CR: u8 = 13;

/// The byte value of line feed.
pub const LF: u8 = 10;

/// An empty line (`\r\n\r\n`) starts at position `i` of `s`: the delimiter
/// that ends a header block.
pub open spec fn delimiter_at(s: Seq<u8>, i: int) -> bool {
    &&& 0 <= i
    &&& i + 4 <= s.len()
    &&& s[i] == CR
    &&& s[i + 1] == LF
    &&& s[i + 2] == CR
    &&& s[i + 3] == LF
}

/// `s` holds a complete header block: an empty line occurs somewhere in it.
pub open spec fn has_delimiter(s: Seq<u8>) -> bool {
    exists|i: int| delimiter_at(s, i)
}

/// The earliest empty line of `s` starts at position `i`.
pub open spec fn first_delimiter_at(s: Seq<u8>, i: int) -> bool {
    &&& delimiter_at(s, i)
    &&& forall|j: int| 0 <= j < i ==> !delimiter_at(s, j)
}

/// `block` is the header block of `s`: everything up to and including the
/// first empty line.
pub open spec fn header_block_of(s: Seq<u8>, block: Seq<u8>) -> bool {
    exists|i: int| #[trigger] first_delimiter_at(s, i) && block == s.subrange(0, i + 4)
}

/// Extract the header block from the bytes read off one connection: the
/// prefix up to and including the first empty line (`\r\n\r\n`). Returns
/// `ExtractionError` exactly when no empty line occurs, in which case the
/// connection is closed without a delivery.
pub fn extract_header_block(buf: &[u8]) -> (r: Result<Vec<u8>, NodeError>)
    ensures
        r is Ok <==> has_delimiter(buf@),
        r matches Ok(block) ==> header_block_of(buf@, block@),
        r is Err ==> r == Err::<Vec<u8>, NodeError>(NodeError::ExtractionError),
{
    let n = buf.len();
    if n < 4 {
        // Too short to hold an empty line.
        proof {
            assert(!has_delimiter(buf@));
        }
        return Err(NodeError::ExtractionError);
    }
    let mut i: usize = 0;
    while i <= n - 4
        invariant
            n == buf@.len(),
            4 <= n,
            i <= n - 3,
            forall|j: int| 0 <= j < i ==> !delimiter_at(buf@, j),
        decreases n - i,
    {
        if buf[i] == CR && buf[i + 1] == LF && buf[i + 2] == CR && buf[i + 3] == LF {
            proof {
                assert(first_delimiter_at(buf@, i as int));
            }
            // Copy the block out: the prefix through this empty line.
            let end = i + 4;
            let mut block: Vec<u8> = Vec::new();
            let mut h: usize = 0;
            while h < end
                invariant
                    h <= end,
                    end <= n,
                    n == buf@.len(),
                    block@ == buf@.subrange(0, h as int),
                decreases end - h,
            {
                let ghost before = block@;
                block.push(buf[h]);
                proof {
                    assert(before.push(buf@[h as int]) =~= buf@.subrange(0, h + 1 as int));
                }
                h = h + 1;
            }
            proof {
                assert(delimiter_at(buf@, i as int));
            }
            return Ok(block);
        }
        i = i + 1;
    }
    // No empty line anywhere: every candidate start fails.
    proof {
        assert forall|j: int| !delimiter_at(buf@, j) by {
            if 0 <= j && j + 4 <= n {
                assert(j <= n - 4 < i);
            }
        }
        assert(!has_delimiter(buf@));
    }
    Err(NodeError::ExtractionError)
}

} // verus!
