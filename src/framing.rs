use vstd::prelude::*;

verus! {

/// The five characters that close every status response: two spaces, a
/// newline and two NUL characters.
pub open spec fn terminator() -> Seq<char> {
    seq![' ', ' ', '\n', '\0', '\0']
}

/// Length of the response terminator, in characters and in bytes.
pub const TERMINATOR_LEN: usize = 5;

/// Does `s` end with the response terminator?
pub open spec fn ends_with_terminator(s: Seq<u8>) -> bool {
    &&& s.len() >= 5
    &&& s.subrange(s.len() - 5, s.len() as int) == seq![0x20u8, 0x20u8, 0x0au8, 0x00u8, 0x00u8]
}

/// The request frame: a two-byte big-endian length (6) and the command `status`.
pub open spec fn status_request() -> Seq<u8> {
    seq![0x00u8, 0x06u8, 0x73u8, 0x74u8, 0x61u8, 0x74u8, 0x75u8, 0x73u8]
}

/// Builds the only request frame the client ever sends.
pub fn request_frame() -> (r: Vec<u8>)
    ensures
        r@ == status_request(),
{
    let r: Vec<u8> = vec![0x00u8, 0x06u8, 0x73u8, 0x74u8, 0x61u8, 0x74u8, 0x75u8, 0x73u8];
    assert(r@ =~= status_request());
    r
}

/// Does the accumulated response end with the terminator bytes?
pub fn has_terminator(acc: &Vec<u8>) -> (r: bool)
    ensures
        r == ends_with_terminator(acc@),
{
    let n = acc.len();
    if n < TERMINATOR_LEN {
        return false;
    }
    let r = acc[n - 5] == 0x20u8 && acc[n - 4] == 0x20u8 && acc[n - 3] == 0x0au8
        && acc[n - 2] == 0x00u8 && acc[n - 1] == 0x00u8;
    let ghost tail = acc@.subrange(n - 5, n as int);
    assert(r ==> tail =~= seq![0x20u8, 0x20u8, 0x0au8, 0x00u8, 0x00u8]);
    assert(!r ==> {
        ||| tail[0] != 0x20u8
        ||| tail[1] != 0x20u8
        ||| tail[2] != 0x0au8
        ||| tail[3] != 0x00u8
        ||| tail[4] != 0x00u8
    });
    r
}

/// One turn of the read loop: appends the bytes just read to the
/// accumulator and says whether reading is over. It is over when the peer
/// closed the stream (an empty read) or when the accumulator now ends with
/// the terminator.
pub fn read_step(acc: &mut Vec<u8>, chunk: &[u8]) -> (done: bool)
    ensures
        final(acc)@ == old(acc)@ + chunk@,
        done == (chunk@.len() == 0 || ends_with_terminator(final(acc)@)),
{
    let mut i: usize = 0;
    while i < chunk.len()
        invariant
            i <= chunk@.len(),
            acc@ == old(acc)@ + chunk@.subrange(0, i as int),
        decreases chunk@.len() - i,
    {
        acc.push(chunk[i]);
        i = i + 1;
        assert(acc@ =~= old(acc)@ + chunk@.subrange(0, i as int));
    }
    assert(chunk@.subrange(0, i as int) =~= chunk@);
    if chunk.len() == 0 {
        true
    } else {
        has_terminator(acc)
    }
}

} // verus!
