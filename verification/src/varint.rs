use vstd::prelude::*;

verus! {

/// The little-endian base-128 encoding of `v` (a protobuf varint): seven
/// payload bits per byte, the high bit set on every byte but the last.
pub open spec fn spec_varint(v: nat) -> Seq<u8>
    decreases v,
{
    if v < 128 {
        seq![v as u8]
    } else {
        seq![(128 + (v % 128)) as u8] + spec_varint(v / 128)
    }
}

/// Appends the varint encoding of `v` to `buf`.
pub fn push_varint(buf: &mut Vec<u8>, v: u64)
    ensures
        final(buf)@ == old(buf)@ + spec_varint(v as nat),
{
    let ghost orig: Seq<u8> = buf@;
    let ghost v0: nat = v as nat;
    let mut x: u64 = v;
    while x >= 128
        invariant
            buf@ + spec_varint(x as nat) == orig + spec_varint(v0),
        decreases x,
    {
        let b: u64 = 128 + (x % 128);
        proof {
            assert(spec_varint(x as nat) == seq![b as u8] + spec_varint((x as nat) / 128));
            assert((buf@ + seq![b as u8]) + spec_varint((x / 128) as nat) =~= buf@ + (seq![
                b as u8,
            ] + spec_varint((x / 128) as nat)));
        }
        buf.push(b as u8);
        x = x / 128;
    }
    proof {
        assert(spec_varint(x as nat) == seq![x as u8]);
    }
    buf.push(x as u8);
    proof {
        assert(buf@ =~= orig + spec_varint(v0));
    }
}

/// Appends all of `b` to `buf`.
pub fn push_bytes(buf: &mut Vec<u8>, b: &Vec<u8>)
    ensures
        final(buf)@ == old(buf)@ + b@,
{
    let ghost orig: Seq<u8> = buf@;
    let mut i: usize = 0;
    while i < b.len()
        invariant
            i <= b@.len(),
            buf@ == orig + b@.take(i as int),
        decreases b@.len() - i,
    {
        buf.push(b[i]);
        proof {
            assert(orig + b@.take(i + 1 as int) =~= (orig + b@.take(i as int)).push(b@[i as int]));
        }
        i = i + 1;
    }
    proof {
        assert(orig + b@.take(b@.len() as int) =~= orig + b@);
    }
}

} // verus!
