//! Wire encoding of one multipart-replace part. Each published frame is
//! sent as: a fixed boundary and header prefix, the frame's byte length
//! in decimal ASCII, a blank line, then the raw JPEG bytes.
use vstd::prelude::*;

verus! {

/// The fixed prefix of every part:
/// `\r\n--7b3cc56e5f51db803f790dad720ed50a\r\nContent-Type: image/jpeg\r\nContent-Length: `
/// as its 80 ASCII byte values.
pub open spec fn head_bytes() -> Seq<u8> {
    seq![
        13u8, 10, 45, 45, 55, 98, 51, 99, 99, 53, 54, 101, 53, 102, 53, 49, 100, 98, 56, 48,
        51, 102, 55, 57, 48, 100, 97, 100, 55, 50, 48, 101, 100, 53, 48, 97, 13, 10, 67, 111,
        110, 116, 101, 110, 116, 45, 84, 121, 112, 101, 58, 32, 105, 109, 97, 103, 101, 47,
        106, 112, 101, 103, 13, 10, 67, 111, 110, 116, 101, 110, 116, 45, 76, 101, 110, 103,
        116, 104, 58, 32,
    ]
}

/// The decimal ASCII digits of `n`, most significant first, with no
/// leading zeros (a single `0` for zero itself).
pub open spec fn dec_digits(n: nat) -> Seq<u8>
    decreases n,
{
    if n < 10 {
        seq![(48 + n) as u8]
    } else {
        dec_digits(n / 10).push((48 + n % 10) as u8)
    }
}

/// The exact bytes put on the wire for one frame: prefix, decimal
/// length, `\r\n\r\n`, then the frame itself.
pub open spec fn part_bytes(jpeg: Seq<u8>) -> Seq<u8> {
    head_bytes() + dec_digits(jpeg.len()) + seq![13u8, 10, 13, 10] + jpeg
}

/// Append the decimal ASCII digits of `n` to `out`.
fn push_dec(out: &mut Vec<u8>, n: usize)
    ensures
        final(out)@ == old(out)@ + dec_digits(n as nat),
    decreases n,
{
    if n < 10 {
        out.push(48 + n as u8);
    } else {
        push_dec(out, n / 10);
        out.push(48 + (n % 10) as u8);
        assert(out@ =~= old(out)@ + dec_digits(n as nat));
    }
}

/// Encode one frame as one part of the multipart stream, exactly as the
/// wire template demands: `part_bytes` of the frame's contents.
pub fn encode_part(jpeg: &Vec<u8>) -> (r: Vec<u8>)
    ensures
        r@ == part_bytes(jpeg@),
{
    let mut out: Vec<u8> = Vec::new();
    push_head(&mut out);
    push_dec(&mut out, jpeg.len());
    out.push(13);
    out.push(10);
    out.push(13);
    out.push(10);
    let ghost before_body = out@;
    assert(before_body =~= head_bytes() + dec_digits(jpeg@.len()) + seq![13u8, 10, 13, 10]);
    let mut i: usize = 0;
    while i < jpeg.len()
        invariant
            i <= jpeg.len(),
            out@ == before_body + jpeg@.subrange(0, i as int),
        decreases jpeg.len() - i,
    {
        out.push(jpeg[i]);
        i = i + 1;
        assert(out@ =~= before_body + jpeg@.subrange(0, i as int));
    }
    assert(jpeg@.subrange(0, jpeg@.len() as int) =~= jpeg@);
    assert(out@ =~= part_bytes(jpeg@));
    out
}

/// Append the fixed 80-byte part prefix to `out`.
fn push_head(out: &mut Vec<u8>)
    ensures
        final(out)@ == old(out)@ + head_bytes(),
{
    out.push(13);
    out.push(10);
    out.push(45);
    out.push(45);
    out.push(55);
    out.push(98);
    out.push(51);
    out.push(99);
    out.push(99);
    out.push(53);
    out.push(54);
    out.push(101);
    out.push(53);
    out.push(102);
    out.push(53);
    out.push(49);
    out.push(100);
    out.push(98);
    out.push(56);
    out.push(48);
    out.push(51);
    out.push(102);
    out.push(55);
    out.push(57);
    out.push(48);
    out.push(100);
    out.push(97);
    out.push(100);
    out.push(55);
    out.push(50);
    out.push(48);
    out.push(101);
    out.push(100);
    out.push(53);
    out.push(48);
    out.push(97);
    out.push(13);
    out.push(10);
    out.push(67);
    out.push(111);
    out.push(110);
    out.push(116);
    out.push(101);
    out.push(110);
    out.push(116);
    out.push(45);
    out.push(84);
    out.push(121);
    out.push(112);
    out.push(101);
    out.push(58);
    out.push(32);
    out.push(105);
    out.push(109);
    out.push(97);
    out.push(103);
    out.push(101);
    out.push(47);
    out.push(106);
    out.push(112);
    out.push(101);
    out.push(103);
    out.push(13);
    out.push(10);
    out.push(67);
    out.push(111);
    out.push(110);
    out.push(116);
    out.push(101);
    out.push(110);
    out.push(116);
    out.push(45);
    out.push(76);
    out.push(101);
    out.push(110);
    out.push(103);
    out.push(116);
    out.push(104);
    out.push(58);
    out.push(32);
    assert(out@ =~= old(out)@ + head_bytes());
}

} // verus!
