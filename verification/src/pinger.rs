use vstd::prelude::*;

verus! {

/// Sum of the probe samples that came back.
pub open spec fn sum_samples(s: Seq<Option<u64>>) -> int
    decreases s.len(),
{
    if s.len() == 0 {
        0
    } else {
        (match s[0] {
            Some(v) => v as int,
            None => 0,
        }) + sum_samples(s.drop_first())
    }
}

/// How many probe samples came back.
pub open spec fn count_samples(s: Seq<Option<u64>>) -> int
    decreases s.len(),
{
    if s.len() == 0 {
        0
    } else {
        (if s[0] is Some {
            1int
        } else {
            0int
        }) + count_samples(s.drop_first())
    }
}

/// Relies on rand's `Rng::gen_range` over `0..255`: the sample lies in that
/// half-open range.
#[verifier::external_body]
fn gen_random_cur_id() -> (r: u8)
    ensures
        r < 255,
{
    rand::Rng::gen_range(&mut rand::thread_rng(), 0..255u8)
}

/// A probe datagram under a freshly drawn id, handed back beside the id a
/// matching reply must echo.
pub fn fresh_probe_request() -> (r: (Vec<u8>, u8))
    ensures
        r.0@.len() == 13,
        forall|i: int| 0 <= i < 12 ==> r.0@[i] == 0x7du8,
        r.0@[12] == r.1,
        r.1 < 255,
{
    let id = gen_random_cur_id();
    (probe_request(id), id)
}

/// The 13-byte probe datagram: twelve `0x7D` bytes and the probe id.
pub fn probe_request(id: u8) -> (r: Vec<u8>)
    ensures
        r@.len() == 13,
        forall|i: int| 0 <= i < 12 ==> r@[i] == 0x7du8,
        r@[12] == id,
{
    let mut bytes: Vec<u8> = Vec::new();
    let mut i: usize = 0;
    while i < 12
        invariant
            i <= 12,
            bytes@.len() == i,
            forall|j: int| 0 <= j < i ==> bytes@[j] == 0x7du8,
        decreases 12 - i,
    {
        bytes.push(0x7d);
        i = i + 1;
    }
    bytes.push(id);
    bytes
}

/// Whether a probe reply answers the probe that was sent: thirteen bytes
/// with the id echoed at the last one.  A mismatch spoils only that sample.
pub fn probe_reply_matches(id: u8, reply: &Vec<u8>) -> (r: bool)
    ensures
        r == (reply@.len() == 13 && reply@[12] == id),
{
    reply.len() == 13 && reply[12] == id
}

/// The arithmetic mean of the samples that came back, and zero when none
/// did: a mismatched or lost probe is left out without spoiling the
/// session.
pub fn aggregate_samples(samples: &Vec<Option<u64>>) -> (r: u64)
    ensures
        count_samples(samples@) == 0 ==> r == 0,
        count_samples(samples@) > 0 ==> r == sum_samples(samples@) / count_samples(samples@),
{
    let n = samples.len();
    let mut sum: u128 = 0;
    let mut count: u64 = 0;
    let mut i: usize = 0;
    proof {
        assert(samples@.skip(0) =~= samples@);
    }
    while i < n
        invariant
            i <= n,
            n == samples@.len(),
            count <= i,
            sum <= count * 0xFFFF_FFFF_FFFF_FFFFu128,
            sum_samples(samples@) == sum + sum_samples(samples@.skip(i as int)),
            count_samples(samples@) == count + count_samples(samples@.skip(i as int)),
        decreases n - i,
    {
        proof {
            assert(samples@.skip(i as int)[0] == samples@[i as int]);
            assert(samples@.skip(i as int).drop_first() =~= samples@.skip(i + 1));
        }
        match samples[i] {
            Some(v) => {
                sum = sum + (v as u128);
                count = count + 1;
            },
            None => {},
        }
        i = i + 1;
    }
    proof {
        assert(samples@.skip(n as int) =~= Seq::<Option<u64>>::empty());
    }

    if count == 0 {
        return 0;
    }
    let avg = sum / (count as u128);
    proof {
        vstd::arithmetic::div_mod::lemma_div_is_ordered(
            sum as int,
            count * 0xFFFF_FFFF_FFFF_FFFF,
            count as int,
        );
        vstd::arithmetic::div_mod::lemma_div_by_multiple(
            0xFFFF_FFFF_FFFF_FFFF,
            count as int,
        );
    }
    avg as u64
}

} // verus!
