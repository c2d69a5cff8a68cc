use vstd::prelude::*;

verus! {

/// The `k` low-order bytes of `n`, least significant first.
pub open spec fn le_bytes(n: nat, k: nat) -> Seq<u8>
    decreases k,
{
    if k == 0 {
        seq![]
    } else {
        seq![(n % 256) as u8] + le_bytes(n / 256, (k - 1) as nat)
    }
}

/// The plain fixed-width encoding of a `u64`: eight bytes, little-endian.
pub open spec fn encoded_u64(n: u64) -> Seq<u8> {
    le_bytes(n as nat, 8)
}

/// Encodes `n` as eight little-endian bytes.
pub fn encode_u64(n: u64) -> (r: Vec<u8>)
    ensures
        r@ == encoded_u64(n),
        r@.len() == 8,
{
    let mut v: Vec<u8> = Vec::new();
    let mut x: u64 = n;
    let mut i: usize = 0;
    while i < 8
        invariant
            i <= 8,
            v@.len() == i,
            v@ + le_bytes(x as nat, (8 - i) as nat) == le_bytes(n as nat, 8),
        decreases 8 - i,
    {
        let b: u8 = (x % 256) as u8;
        let ghost rest = le_bytes((x / 256) as nat, (8 - i - 1) as nat);
        assert(le_bytes(x as nat, (8 - i) as nat) == seq![b] + rest);
        assert(v@.push(b) + rest =~= v@ + (seq![b] + rest));
        v.push(b);
        x = x / 256;
        i = i + 1;
    }
    assert(le_bytes(x as nat, 0) =~= Seq::<u8>::empty());
    assert(v@ + le_bytes(x as nat, 0) =~= v@);
    v
}

} // verus!
