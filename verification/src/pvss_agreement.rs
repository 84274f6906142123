//! Erasure coding of a dealt PVSS transcript into one codeword per committee
//! member, and recovery of the transcript from enough codewords.
use vstd::prelude::*;
use reed_solomon_erasure::galois_8::ReedSolomon;
use crate::text::{debug_bytes, debug_bytes_chars, str_equal, string_of};
use crate::merkle::strings_view;

verus! {

#[verifier::external_type_specification]
#[verifier::external_body]
pub struct ExErasureError(reed_solomon_erasure::Error);

/// A Reed-Solomon codec over GF(2^8) (`reed_solomon_erasure::galois_8::ReedSolomon`),
/// held opaquely; the shard counts it was made with are `coder_data_shards`
/// and `coder_parity_shards`.
#[verifier::external_body]
pub struct ErasureCoder {
    rs: ReedSolomon,
}

/// The number of data shards a codec was made with.
pub uninterp spec fn coder_data_shards(c: ErasureCoder) -> nat;

/// The number of parity shards a codec was made with.
pub uninterp spec fn coder_parity_shards(c: ErasureCoder) -> nat;

/// The parity shards that the code computes for the given data shards.
pub uninterp spec fn rs_parity(data: Seq<Seq<u8>>, parity_count: nat) -> Seq<Seq<u8>>;

/// All shards, as reconstruction fills in the missing ones.
pub uninterp spec fn rs_reconstructed(
    shards: Seq<Option<Seq<u8>>>,
    data_count: nat,
    parity_count: nat,
) -> Seq<Seq<u8>>;

/// The views of a sequence of byte vectors.
pub open spec fn byte_views(v: Seq<Vec<u8>>) -> Seq<Seq<u8>> {
    v.map_values(|x: Vec<u8>| x@)
}

/// The views of a sequence of optional byte vectors.
pub open spec fn option_views(v: Seq<Option<Vec<u8>>>) -> Seq<Option<Seq<u8>>> {
    v.map_values(|x: Option<Vec<u8>>| match x {
        Some(b) => Some(b@),
        None => None,
    })
}

/// `ReedSolomon::new(data_shards, parity_shards)`: fails exactly when either
/// count is zero or together they exceed 256. The sum is taken in `usize`
/// before any check, so it must not overflow.
#[verifier::external_body]
fn coder_new(data_shards: usize, parity_shards: usize) -> (r: Result<ErasureCoder, reed_solomon_erasure::Error>)
    requires
        data_shards + parity_shards <= usize::MAX,
    ensures
        r is Ok <==> (data_shards > 0 && parity_shards > 0 && data_shards + parity_shards <= 256),
        r matches Ok(c) ==> coder_data_shards(c) == data_shards && coder_parity_shards(c)
            == parity_shards,
{
    ReedSolomon::new(data_shards, parity_shards).map(|rs| ErasureCoder { rs })
}

/// `ReedSolomon::encode`: fails, touching nothing, unless there are exactly
/// as many shards as the codec has and all have one non-zero length; then the
/// data shards stay and the parity shards are overwritten with the code's
/// parity of the data shards, of the same length.
#[verifier::external_body]
fn coder_encode(c: &ErasureCoder, shards: &mut Vec<Vec<u8>>) -> (r: Result<(), reed_solomon_erasure::Error>)
    ensures
        r is Ok <==> (old(shards)@.len() == coder_data_shards(*c) + coder_parity_shards(*c)
            && old(shards)@[0]@.len() > 0 && forall|i: int|
            0 <= i < old(shards)@.len() ==> #[trigger] old(shards)@[i]@.len() == old(
                shards,
            )@[0]@.len()),
        r is Err ==> final(shards)@ == old(shards)@,
        r is Ok ==> byte_views(final(shards)@) == byte_views(old(shards)@).subrange(
            0,
            coder_data_shards(*c) as int,
        ) + rs_parity(
            byte_views(old(shards)@).subrange(0, coder_data_shards(*c) as int),
            coder_parity_shards(*c),
        ),
        r is Ok ==> rs_parity(
            byte_views(old(shards)@).subrange(0, coder_data_shards(*c) as int),
            coder_parity_shards(*c),
        ).len() == coder_parity_shards(*c),
        r is Ok ==> forall|i: int|
            0 <= i < final(shards)@.len() ==> #[trigger] final(shards)@[i]@.len() == old(
                shards,
            )@[0]@.len(),
{
    c.rs.encode(shards)
}

/// The shards that are present.
pub open spec fn present_count(v: Seq<Option<Seq<u8>>>) -> nat
    decreases v.len(),
{
    if v.len() == 0 {
        0
    } else {
        present_count(v.drop_last()) + if v.last() is Some {
            1nat
        } else {
            0nat
        }
    }
}

/// The present shards are non-empty and of one length.
pub open spec fn present_uniform(v: Seq<Option<Seq<u8>>>) -> bool {
    forall|i: int, j: int|
        0 <= i < v.len() && 0 <= j < v.len() && v[i] is Some && v[j] is Some ==> v[i]->0.len()
            > 0 && v[i]->0.len() == v[j]->0.len()
}

/// `ReedSolomon::reconstruct`: fails, touching nothing, unless there are
/// exactly as many shards as the codec has, the present ones are non-empty
/// and of one length, and at least as many are present as there are data
/// shards; then every shard is present, the present ones unchanged.
#[verifier::external_body]
fn coder_reconstruct(c: &ErasureCoder, shards: &mut Vec<Option<Vec<u8>>>) -> (r: Result<(), reed_solomon_erasure::Error>)
    ensures
        r is Ok <==> (old(shards)@.len() == coder_data_shards(*c) + coder_parity_shards(*c)
            && present_uniform(option_views(old(shards)@)) && present_count(
            option_views(old(shards)@),
        ) >= coder_data_shards(*c)),
        r is Err ==> final(shards)@ == old(shards)@,
        r is Ok ==> rs_reconstructed(
            option_views(old(shards)@),
            coder_data_shards(*c),
            coder_parity_shards(*c),
        ).len() == old(shards)@.len(),
        r is Ok ==> final(shards)@.len() == old(shards)@.len() && forall|i: int|
            0 <= i < final(shards)@.len() ==> {
                &&& (#[trigger] final(shards)@[i]) is Some
                &&& option_views(old(shards)@)[i] is Some ==> option_views(final(shards)@)[i]
                    == option_views(old(shards)@)[i]
                &&& option_views(final(shards)@)[i]->0 == rs_reconstructed(
                    option_views(old(shards)@),
                    coder_data_shards(*c),
                    coder_parity_shards(*c),
                )[i]
            },
        r is Ok ==> forall|full: Seq<Seq<u8>>|
            #![trigger rs_parity(full.subrange(0, coder_data_shards(*c) as int), coder_parity_shards(*c))]
            consistent_codeword(option_views(old(shards)@), full, coder_data_shards(*c), coder_parity_shards(*c))
                ==> rs_reconstructed(option_views(old(shards)@), coder_data_shards(*c), coder_parity_shards(*c))
                == full,
{
    c.rs.reconstruct(shards)
}

/// `full` is a codeword of the code, its data shards followed by their
/// parity, and every shard that is present agrees with it.
pub open spec fn consistent_codeword(
    present: Seq<Option<Seq<u8>>>,
    full: Seq<Seq<u8>>,
    data_count: nat,
    parity_count: nat,
) -> bool {
    &&& full.len() == present.len()
    &&& data_count <= full.len()
    &&& full.subrange(data_count as int, full.len() as int) == rs_parity(
        full.subrange(0, data_count as int),
        parity_count,
    )
    &&& forall|i: int| 0 <= i < present.len() && (#[trigger] present[i]) is Some ==> present[i]->0 == full[i]
}

/// The length of each shard when `len` bytes are cut into `k` shards.
pub open spec fn shard_size(len: nat, k: nat) -> nat {
    ((len + k - 1) / k as int) as nat
}

/// The data zero-padded to `k` shards of equal length, cut into those shards.
pub open spec fn data_shards(data: Seq<u8>, k: nat) -> Seq<Seq<u8>> {
    let size = shard_size(data.len(), k);
    let padded = data + Seq::new((size * k - data.len()) as nat, |i: int| 0u8);
    Seq::new(k, |i: int| padded.subrange(i * size, (i + 1) * size))
}

/// The shards of `data` for `num_nodes` members of whom `num_faults` may
/// fail: the data shards followed by their parity shards.
pub open spec fn shards_of(data: Seq<u8>, num_nodes: nat, num_faults: nat) -> Seq<Seq<u8>> {
    let k = (num_nodes - num_faults) as nat;
    data_shards(data, k) + rs_parity(data_shards(data, k), num_faults)
}

proof fn lemma_shard_size(len: nat, k: nat)
    requires
        k > 0,
        len > 0,
    ensures
        shard_size(len, k) * k >= len,
        shard_size(len, k) > 0,
        shard_size(len, k) * k < len + k,
{
    let s = shard_size(len, k);
    assert(s * k >= len && s * k < len + k && s > 0) by (nonlinear_arith)
        requires
            s == (len + k - 1) / k as int,
            k > 0,
            len > 0,
    ;
}

/// Cuts `data` into shards for `num_nodes` members tolerating `num_faults`
/// failures: the zero-padded data in `num_nodes - num_faults` shards, then
/// `num_faults` Reed-Solomon parity shards.
pub fn to_shards(data: &[u8], num_nodes: usize, num_faults: usize) -> (result: Vec<Vec<u8>>)
    requires
        0 < num_faults < num_nodes <= 256,
        data@.len() > 0,
        data@.len() + num_nodes <= usize::MAX,
    ensures
        byte_views(result@) == shards_of(data@, num_nodes as nat, num_faults as nat),
        result@.len() == num_nodes,
        shard_size(data@.len(), (num_nodes - num_faults) as nat) > 0,
        forall|i: int|
            0 <= i < result@.len() ==> #[trigger] result@[i]@.len() == shard_size(
                data@.len(),
                (num_nodes - num_faults) as nat,
            ),
{
    let num_data_shards = num_nodes - num_faults;
    let size = (data.len() + num_data_shards - 1) / num_data_shards;
    proof {
        lemma_shard_size(data@.len(), num_data_shards as nat);
        assert(size * num_data_shards <= data@.len() + num_data_shards) by (nonlinear_arith)
            requires
                size * num_data_shards < data@.len() + num_data_shards,
        ;
    }
    let total = size * num_data_shards;
    let padding_size = total - data.len();
    let mut padded: Vec<u8> = Vec::new();
    let mut i: usize = 0;
    while i < data.len()
        invariant
            i <= data@.len(),
            padded@ == data@.subrange(0, i as int),
        decreases data.len() - i,
    {
        padded.push(data[i]);
        i = i + 1;
    }
    let mut j: usize = 0;
    while j < padding_size
        invariant
            j <= padding_size,
            data@.len() + padding_size == total,
            padded@ == data@ + Seq::new(j as nat, |x: int| 0u8),
        decreases padding_size - j,
    {
        padded.push(0u8);
        j = j + 1;
        assert(padded@ =~= data@ + Seq::new(j as nat, |x: int| 0u8));
    }
    let ghost expected = data_shards(data@, num_data_shards as nat);
    assert(padded@ =~= data@ + Seq::new((size * num_data_shards - data@.len()) as nat, |x: int| 0u8));
    let mut result: Vec<Vec<u8>> = Vec::new();
    let mut shard: usize = 0;
    while shard < num_data_shards
        invariant
            shard <= num_data_shards,
            padded@.len() == size * num_data_shards,
            expected == data_shards(data@, num_data_shards as nat),
            size == shard_size(data@.len(), num_data_shards as nat),
            padded@ == data@ + Seq::new((size * num_data_shards - data@.len()) as nat, |x: int| 0u8),
            byte_views(result@) == expected.subrange(0, shard as int),
            size * num_data_shards <= data@.len() + num_data_shards,
            data@.len() + num_data_shards <= usize::MAX,
            result@.len() == shard,
            forall|x: int| 0 <= x < result@.len() ==> #[trigger] result@[x]@.len() == size,
        decreases num_data_shards - shard,
    {
        proof {
            assert((shard + 1) * size <= size * num_data_shards) by (nonlinear_arith)
                requires
                    shard < num_data_shards,
            ;
            assert(shard * size + size == (shard + 1) * size) by (nonlinear_arith);
            assert(shard * size <= (shard + 1) * size) by (nonlinear_arith);
        }
        let piece = crate::pvss_agreement::slice_bytes(&padded, shard * size, (shard + 1) * size);
        let ghost before = result@;
        result.push(piece);
        proof {
            assert(byte_views(result@) =~= byte_views(before).push(piece@));
            assert(expected.subrange(0, shard + 1) =~= expected.subrange(0, shard as int).push(
                expected[shard as int],
            ));
        }
        shard = shard + 1;
    }
    assert(expected.subrange(0, num_data_shards as int) =~= expected);
    let mut f: usize = 0;
    while f < num_faults
        invariant
            f <= num_faults,
            num_data_shards + num_faults == num_nodes,
            result@.len() == num_data_shards + f,
            byte_views(result@).subrange(0, num_data_shards as int) == expected,
            forall|x: int| 0 <= x < result@.len() ==> #[trigger] result@[x]@.len() == size,
        decreases num_faults - f,
    {
        let mut zeros: Vec<u8> = Vec::new();
        let mut z: usize = 0;
        while z < size
            invariant
                z <= size,
                zeros@.len() == z,
            decreases size - z,
        {
            zeros.push(0u8);
            z = z + 1;
        }
        let ghost before = result@;
        result.push(zeros);
        proof {
            assert(byte_views(result@).subrange(0, num_data_shards as int) =~= byte_views(before).subrange(0, num_data_shards as int));
        }
        f = f + 1;
    }
    let r = match coder_new(num_data_shards, num_faults) {
        Ok(r) => r,
        Err(_) => {
            assert(false);
            return result;
        },
    };
    proof {
        assert(result@[0]@.len() == size);
    }
    let ghost pre = result@;
    match coder_encode(&r, &mut result) {
        Ok(_) => {},
        Err(_) => {
            assert(false);
        },
    }
    assert(byte_views(pre).subrange(0, num_data_shards as int).len() == num_data_shards);
    assert(byte_views(result@).len() == result@.len());
    assert(pre[0]@.len() == size);
    result
}

/// The bytes of `b` from `from` up to, not including, `to`.
pub fn slice_bytes(b: &Vec<u8>, from: usize, to: usize) -> (r: Vec<u8>)
    requires
        from <= to <= b@.len(),
    ensures
        r@ == b@.subrange(from as int, to as int),
{
    let mut r: Vec<u8> = Vec::new();
    let mut i = from;
    while i < to
        invariant
            from <= i <= to,
            to <= b@.len(),
            r@ == b@.subrange(from as int, i as int),
        decreases to - i,
    {
        r.push(b[i]);
        i = i + 1;
    }
    r
}

/// `b` shortened by as many bytes as its last byte says (to nothing if it
/// says more than there are); the empty sequence stays empty.
pub open spec fn truncate_by_last(b: Seq<u8>) -> Seq<u8> {
    if b.len() == 0 {
        b
    } else if b.last() as int <= b.len() {
        b.subrange(0, b.len() - b.last() as int)
    } else {
        Seq::empty()
    }
}

/// The bytes recovered from the shards: the reconstructed data shards
/// concatenated, then shortened by the value of the last byte.
pub open spec fn recovered(data: Seq<Option<Seq<u8>>>, num_nodes: nat, num_faults: nat) -> Seq<u8> {
    let k = (num_nodes - num_faults) as nat;
    truncate_by_last(rs_reconstructed(data, k, num_faults).subrange(0, k as int).flatten())
}

/// Recovers the data from the shards that arrived (`None` for a missing
/// one): reconstructs the missing shards, concatenates the data shards and
/// drops as many trailing bytes as the last byte's value.
pub fn from_shards(data: Vec<Option<Vec<u8>>>, num_nodes: usize, num_faults: usize) -> (result: Vec<u8>)
    requires
        0 < num_faults < num_nodes <= 256,
        data@.len() == num_nodes,
        present_uniform(option_views(data@)),
        present_count(option_views(data@)) >= num_nodes - num_faults,
    ensures
        result@ == recovered(option_views(data@), num_nodes as nat, num_faults as nat),
        forall|full: Seq<Seq<u8>>|
            #![trigger rs_parity(full.subrange(0, num_nodes - num_faults), num_faults as nat)]
            consistent_codeword(option_views(data@), full, (num_nodes - num_faults) as nat, num_faults as nat)
                ==> result@ == truncate_by_last(full.subrange(0, num_nodes - num_faults).flatten()),
{
    let mut data = data;
    let num_data_shards = num_nodes - num_faults;
    let r = match coder_new(num_data_shards, num_faults) {
        Ok(r) => r,
        Err(_) => {
            assert(false);
            return Vec::new();
        },
    };
    let ghost before = option_views(data@);
    let ghost full = rs_reconstructed(before, num_data_shards as nat, num_faults as nat);
    match coder_reconstruct(&r, &mut data) {
        Ok(_) => {},
        Err(_) => {
            assert(false);
        },
    }
    let mut result: Vec<u8> = Vec::new();
    let mut shard: usize = 0;
    while shard < num_data_shards
        invariant
            shard <= num_data_shards <= data@.len(),
            full.len() == data@.len(),
            forall|i: int|
                0 <= i < data@.len() ==> (#[trigger] data@[i]) is Some && option_views(data@)[i]->0
                    == full[i],
            result@ == full.subrange(0, shard as int).flatten(),
        decreases num_data_shards - shard,
    {
        let piece = match &data[shard] {
            Some(p) => p.clone(),
            None => {
                assert(false);
                Vec::new()
            },
        };
        proof {
            assert(piece@ == full[shard as int]);
        }
        let mut k: usize = 0;
        let ghost start = result@;
        while k < piece.len()
            invariant
                k <= piece.len(),
                result@ == start + piece@.subrange(0, k as int),
            decreases piece.len() - k,
        {
            result.push(piece[k]);
            k = k + 1;
        }
        proof {
            assert(piece@.subrange(0, piece@.len() as int) =~= piece@);
            assert(full.subrange(0, shard + 1) =~= full.subrange(0, shard as int).push(full[shard as int]));
            full.subrange(0, shard as int).lemma_flatten_push(full[shard as int]);
        }
        shard = shard + 1;
    }
    if result.len() > 0 {
        let last = result[result.len() - 1] as usize;
        let new_length = if last <= result.len() {
            result.len() - last
        } else {
            0
        };
        let truncated = slice_bytes(&result, 0, new_length);
        proof {
            if !(last <= result@.len()) {
                assert(truncated@ =~= Seq::<u8>::empty());
            }
        }
        truncated
    } else {
        result
    }
}

/// The committee size that the encoder uses: two in the `dev_init` medium.
pub open spec fn encoder_size(committee_size: nat, medium: Seq<char>) -> nat {
    if medium == "dev_init"@ {
        2
    } else {
        committee_size
    }
}

/// The inputs that the encoder handles: a committee of two, or of three to
/// 256 members with non-empty data.
pub open spec fn encoder_accepts(data_len: nat, committee_size: nat, medium: Seq<char>) -> bool {
    let n = encoder_size(committee_size, medium);
    n == 2 || (3 <= n <= 256 && data_len > 0 && data_len + n <= usize::MAX)
}

/// The codewords of `data`: for a committee of two, the data twice; else one
/// shard per member, tolerating half the committee failing; each written
/// as a byte list `[1, 2, 3]`.
pub open spec fn encode_leaves(data: Seq<u8>, committee_size: nat, medium: Seq<char>) -> Seq<Seq<char>> {
    let n = encoder_size(committee_size, medium);
    if n == 2 {
        seq![debug_bytes(data), debug_bytes(data)]
    } else {
        let sh = shards_of(data, n, n / 2);
        Seq::new(sh.len(), |i: int| debug_bytes(sh[i]))
    }
}

/// Encodes the PVSS data into one codeword per committee member.
pub fn encoder(pvss_data: &[u8], committee_size: usize, medium: String) -> (leaves: Vec<String>)
    requires
        encoder_accepts(pvss_data@.len(), committee_size as nat, medium@),
    ensures
        strings_view(leaves@) == encode_leaves(pvss_data@, committee_size as nat, medium@),
        leaves@.len() == encoder_size(committee_size as nat, medium@),
        encoder_size(committee_size as nat, medium@) != 2 ==> shard_size(
            pvss_data@.len(),
            (encoder_size(committee_size as nat, medium@) - encoder_size(committee_size as nat, medium@) / 2) as nat,
        ) > 0,
        encoder_size(committee_size as nat, medium@) != 2 ==> forall|i: int|
            0 <= i < leaves@.len() ==> (#[trigger] shards_of(
                pvss_data@,
                encoder_size(committee_size as nat, medium@),
                encoder_size(committee_size as nat, medium@) / 2,
            )[i]).len() == shard_size(
                pvss_data@.len(),
                (encoder_size(committee_size as nat, medium@) - encoder_size(committee_size as nat, medium@) / 2) as nat,
            ),
{
    let mut committee_size = committee_size;
    if str_equal(medium.as_str(), "dev_init") {
        committee_size = 2;
    }
    let num_nodes = committee_size;
    let num_faults = committee_size / 2;
    let mut data: Vec<u8> = Vec::new();
    let mut i: usize = 0;
    while i < pvss_data.len()
        invariant
            i <= pvss_data@.len(),
            data@ == pvss_data@.subrange(0, i as int),
        decreases pvss_data.len() - i,
    {
        data.push(pvss_data[i]);
        i = i + 1;
    }
    assert(data@ =~= pvss_data@);
    let mut leaves: Vec<String> = Vec::new();
    if committee_size == 2 {
        let text = string_of(&debug_bytes_chars(&data));
        leaves.push(text.clone());
        leaves.push(text);
        assert(strings_view(leaves@) =~= seq![debug_bytes(pvss_data@), debug_bytes(pvss_data@)]);
        return leaves;
    }
    let shards = to_shards(pvss_data, num_nodes, num_faults);
    let ghost sh = shards_of(pvss_data@, num_nodes as nat, num_faults as nat);
    let mut j: usize = 0;
    while j < shards.len()
        invariant
            j <= shards@.len(),
            byte_views(shards@) == sh,
            strings_view(leaves@) == Seq::new(j as nat, |x: int| debug_bytes(sh[x])),
            forall|x: int|
                0 <= x < shards@.len() ==> #[trigger] shards@[x]@.len() == shard_size(
                    pvss_data@.len(),
                    (num_nodes - num_faults) as nat,
                ),
        decreases shards.len() - j,
    {
        let text = string_of(&debug_bytes_chars(&shards[j]));
        assert(byte_views(shards@)[j as int] == shards@[j as int]@);
        assert(text@ == debug_bytes(sh[j as int]));
        let ghost before = leaves@;
        leaves.push(text);
        proof {
            assert(strings_view(leaves@) =~= strings_view(before).push(text@));
            assert(strings_view(leaves@) =~= Seq::new((j + 1) as nat, |x: int| debug_bytes(sh[x])));
        }
        j = j + 1;
    }
    assert forall|x: int| 0 <= x < leaves@.len() implies (#[trigger] sh[x]).len() == shard_size(
        pvss_data@.len(),
        (num_nodes - num_faults) as nat,
    ) by {
        assert(byte_views(shards@)[x] == shards@[x]@);
    }
    leaves
}


/// The shards of an encoding form a codeword of the code: shards received
/// from it, whichever of them are missing, are consistent with the whole
/// encoding, whose data shards are those of the padded data. So
/// `from_shards` recovers the same bytes from any `num_nodes - num_faults`
/// of the shards that `to_shards` made.
pub proof fn lemma_received_shards_consistent(
    data: Seq<u8>,
    num_nodes: nat,
    num_faults: nat,
    received: Seq<Option<Seq<u8>>>,
)
    requires
        num_faults < num_nodes,
        shards_of(data, num_nodes, num_faults).len() == num_nodes,
        received.len() == num_nodes,
        forall|i: int|
            0 <= i < num_nodes && (#[trigger] received[i]) is Some ==> received[i]->0 == shards_of(
                data,
                num_nodes,
                num_faults,
            )[i],
    ensures
        consistent_codeword(
            received,
            shards_of(data, num_nodes, num_faults),
            (num_nodes - num_faults) as nat,
            num_faults,
        ),
        shards_of(data, num_nodes, num_faults).subrange(0, num_nodes - num_faults) == data_shards(
            data,
            (num_nodes - num_faults) as nat,
        ),
{
    let k = (num_nodes - num_faults) as nat;
    let d = data_shards(data, k);
    let full = shards_of(data, num_nodes, num_faults);
    assert(full.subrange(0, k as int) =~= d);
    assert(full.subrange(k as int, full.len() as int) =~= rs_parity(d, num_faults));
}


/// Shards received from an encoding whose shards all have the shard size
/// (as `to_shards` ensures of its result) are non-empty and of one length,
/// whichever of them are missing; so they meet what `from_shards` needs of
/// them once `num_nodes - num_faults` of them arrived.
pub proof fn lemma_received_shards_uniform(
    data: Seq<u8>,
    num_nodes: nat,
    num_faults: nat,
    received: Seq<Option<Seq<u8>>>,
)
    requires
        shard_size(data.len(), (num_nodes - num_faults) as nat) > 0,
        forall|i: int|
            0 <= i < num_nodes ==> (#[trigger] shards_of(data, num_nodes, num_faults)[i]).len()
                == shard_size(data.len(), (num_nodes - num_faults) as nat),
        received.len() == num_nodes,
        forall|i: int|
            0 <= i < num_nodes && (#[trigger] received[i]) is Some ==> received[i]->0 == shards_of(
                data,
                num_nodes,
                num_faults,
            )[i],
    ensures
        present_uniform(received),
{
    let full = shards_of(data, num_nodes, num_faults);
    assert forall|i: int, j: int|
        0 <= i < received.len() && 0 <= j < received.len() && received[i] is Some && received[j] is Some
            implies received[i]->0.len() > 0 && received[i]->0.len() == received[j]->0.len() by {
        assert(full[i].len() == shard_size(data.len(), (num_nodes - num_faults) as nat));
        assert(full[j].len() == shard_size(data.len(), (num_nodes - num_faults) as nat));
    }
}

/// Consecutive pieces of `s` bytes each, concatenated, give the prefix they
/// cover.
proof fn lemma_pieces_flatten(p: Seq<u8>, s: nat, m: nat)
    requires
        m * s <= p.len(),
    ensures
        Seq::new(m, |i: int| p.subrange(i * s, (i + 1) * s)).flatten() == p.subrange(0, (m * s) as int),
    decreases m,
{
    let pieces = Seq::new(m, |i: int| p.subrange(i * s, (i + 1) * s));
    if m == 0 {
        assert(m * s == 0) by (nonlinear_arith)
            requires
                m == 0,
        ;
        assert(pieces.flatten() =~= p.subrange(0, 0));
    } else {
        let m1 = (m - 1) as nat;
        assert(m1 * s + s == m * s) by (nonlinear_arith)
            requires
                m1 == m - 1,
        ;
        assert(m1 * s <= m * s);
        assert((m1 + 1) * s == m * s) by (nonlinear_arith)
            requires
                m1 == m - 1,
        ;
        lemma_pieces_flatten(p, s, m1);
        let front = Seq::new(m1, |i: int| p.subrange(i * s, (i + 1) * s));
        assert(pieces =~= front.push(p.subrange((m1 * s) as int, (m * s) as int)));
        front.lemma_flatten_push(p.subrange((m1 * s) as int, (m * s) as int));
        assert(pieces.flatten() == front.flatten() + p.subrange((m1 * s) as int, (m * s) as int));
        assert(p.subrange(0, (m1 * s) as int) + p.subrange((m1 * s) as int, (m * s) as int) =~= p.subrange(0, (m * s) as int));
        assert(front.flatten() == p.subrange(0, (m1 * s) as int));
        assert(pieces.flatten() == p.subrange(0, (m * s) as int));
    }
}

/// The data shards, concatenated, are the data zero-padded to a whole
/// number of shards.
pub proof fn lemma_data_shards_flatten(data: Seq<u8>, k: nat)
    requires
        k > 0,
        data.len() > 0,
    ensures
        data_shards(data, k).flatten() == data + Seq::new(
            (shard_size(data.len(), k) * k - data.len()) as nat,
            |i: int| 0u8,
        ),
{
    lemma_shard_size(data.len(), k);
    let size = shard_size(data.len(), k);
    let padded = data + Seq::new((size * k - data.len()) as nat, |i: int| 0u8);
    assert(size * k == k * size) by (nonlinear_arith);
    lemma_pieces_flatten(padded, size, k);
    assert(data_shards(data, k) =~= Seq::new(k, |i: int| padded.subrange(i * size, (i + 1) * size)));
    assert(padded.subrange(0, (k * size) as int) =~= padded);
}

/// Recovery from erasures: take the shards of an encoding of `data` whose
/// shards all have the shard size (as `to_shards` ensures of its result),
/// and any of them missing, with at least `num_nodes - num_faults` present.
/// They meet what `from_shards` needs, and the codeword they are consistent
/// with is the encoding itself, so `from_shards` recovers the data
/// zero-padded to whole shards, shortened by the value of its last byte.
pub proof fn lemma_erasure_recovery(
    data: Seq<u8>,
    num_nodes: nat,
    num_faults: nat,
    received: Seq<Option<Seq<u8>>>,
)
    requires
        0 < num_faults < num_nodes,
        data.len() > 0,
        shards_of(data, num_nodes, num_faults).len() == num_nodes,
        forall|i: int|
            0 <= i < num_nodes ==> (#[trigger] shards_of(data, num_nodes, num_faults)[i]).len()
                == shard_size(data.len(), (num_nodes - num_faults) as nat),
        received.len() == num_nodes,
        forall|i: int|
            0 <= i < num_nodes && (#[trigger] received[i]) is Some ==> received[i]->0 == shards_of(
                data,
                num_nodes,
                num_faults,
            )[i],
    ensures
        present_uniform(received),
        consistent_codeword(
            received,
            shards_of(data, num_nodes, num_faults),
            (num_nodes - num_faults) as nat,
            num_faults,
        ),
        truncate_by_last(shards_of(data, num_nodes, num_faults).subrange(0, num_nodes - num_faults).flatten())
            == truncate_by_last(
            data + Seq::new(
                (shard_size(data.len(), (num_nodes - num_faults) as nat) * (num_nodes - num_faults) - data.len()) as nat,
                |i: int| 0u8,
            ),
        ),
{
    let k = (num_nodes - num_faults) as nat;
    lemma_shard_size(data.len(), k);
    lemma_received_shards_uniform(data, num_nodes, num_faults, received);
    lemma_received_shards_consistent(data, num_nodes, num_faults, received);
    lemma_data_shards_flatten(data, k);
}

} // verus!
