//! Payload masking: each payload byte is combined by exclusive or with one
//! byte of the 4-byte mask key, the key repeating every four bytes.

use vstd::prelude::*;

verus! {

/// The payload `data` masked, or unmasked, with `key`.
pub open spec fn masked(data: Seq<u8>, key: Seq<u8>) -> Seq<u8> {
    Seq::new(data.len(), |i: int| data[i] ^ key[i % 4])
}

/// Masking twice with one key gives the payload back.
pub proof fn lemma_mask_twice(data: Seq<u8>, key: Seq<u8>)
    requires
        key.len() == 4,
    ensures
        masked(masked(data, key), key) == data,
{
    assert forall|i: int| 0 <= i < data.len() implies masked(masked(data, key), key)[i] == data[i] by {
        let d = data[i];
        let k = key[i % 4];
        assert((d ^ k) ^ k == d) by (bit_vector);
    }
    assert(masked(masked(data, key), key) =~= data);
}

/// Masks, or unmasks, `data` in place.
pub fn apply_mask(data: &mut Vec<u8>, mask: [u8; 4])
    ensures
        final(data)@ == masked(old(data)@, mask@),
{
    let mut i: usize = 0;
    while i < data.len()
        invariant
            i <= data.len(),
            data.len() == old(data).len(),
            forall|k: int| 0 <= k < i ==> data@[k] == old(data)@[k] ^ mask@[k % 4],
            forall|k: int| i <= k < data.len() ==> data@[k] == old(data)@[k],
        decreases data.len() - i,
    {
        let byte = data[i] ^ mask[i % 4];
        data.set(i, byte);
        i += 1;
    }
    assert(data@ =~= masked(old(data)@, mask@));
}

} // verus!
