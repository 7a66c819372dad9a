//! The binary payload of a results file: 16-byte records of two little-endian
//! IEEE-754 doubles (real part, imaginary part), assigned to the variables in
//! turn. Samples are kept as the doubles' bit patterns.
use vstd::prelude::*;
use crate::error::{ErrorView, SimulationError};
use crate::text::{find_bytes, occurs_at};

verus! {

/// "Binary:\n", the line that ends the header.
pub open spec fn payload_marker() -> Seq<u8> {
    seq![66u8, 105u8, 110u8, 97u8, 114u8, 121u8, 58u8, 10u8]
}

/// `i` is the first position at which the marker occurs in `raw`.
pub open spec fn first_marker_at(raw: Seq<u8>, i: int) -> bool {
    occurs_at(raw, payload_marker(), i) && forall|j: int|
        0 <= j < i ==> !occurs_at(raw, payload_marker(), j)
}

/// Where the payload begins: just after the first marker, if there is one.
pub open spec fn payload_start(raw: Seq<u8>) -> Option<int> {
    if exists|i: int| first_marker_at(raw, i) {
        Some((choose|i: int| first_marker_at(raw, i)) + 8)
    } else {
        None
    }
}

/// The unsigned integer stored little-endian in the eight bytes at `at`.
pub open spec fn le_u64_at(s: Seq<u8>, at: int) -> int {
    s[at] + 256 * (s[at + 1] + 256 * (s[at + 2] + 256 * (s[at + 3] + 256 * (s[at + 4] + 256 * (
    s[at + 5] + 256 * (s[at + 6] + 256 * s[at + 7]))))))
}

/// The bit pattern of the real part of sample `j` of variable `v`, with `n` variables.
pub open spec fn real_bits(payload: Seq<u8>, n: int, v: int, j: int) -> u64 {
    le_u64_at(payload, 16 * (j * n + v)) as u64
}

/// The bit pattern of the imaginary part of sample `j` of variable `v`, with `n` variables.
pub open spec fn imag_bits(payload: Seq<u8>, n: int, v: int, j: int) -> u64 {
    le_u64_at(payload, 16 * (j * n + v) + 8) as u64
}

/// The real parts of every variable's `points` samples.
pub open spec fn reals_of(payload: Seq<u8>, n: nat, points: nat) -> Seq<Seq<u64>> {
    Seq::new(n, |v: int| Seq::new(points, |j: int| real_bits(payload, n as int, v, j)))
}

/// The imaginary parts of every variable's `points` samples.
pub open spec fn imags_of(payload: Seq<u8>, n: nat, points: nat) -> Seq<Seq<u64>> {
    Seq::new(n, |v: int| Seq::new(points, |j: int| imag_bits(payload, n as int, v, j)))
}

/// What is wrong with a payload of `len` bytes meant to hold `points` samples
/// of `n` variables: a trailing partial record or too few records end the data
/// early; records beyond the declared count contradict the header.
pub open spec fn payload_error(len: nat, n: nat, points: nat) -> Option<ErrorView> {
    if len % 16 != 0 || len < 16 * n * points {
        Some(ErrorView::UnexpectedEof)
    } else if len > 16 * n * points {
        Some(ErrorView::MalformedHeader(None))
    } else {
        None
    }
}

/// Relies on byteorder's `LittleEndian::read_u64`: the eight bytes from `at`
/// on, least significant first.
#[verifier::external_body]
fn read_u64_le(buf: &[u8], at: usize) -> (r: u64)
    requires
        at + 8 <= buf@.len(),
    ensures
        r as int == le_u64_at(buf@, at as int),
{
    <byteorder::LittleEndian as byteorder::ByteOrder>::read_u64(&buf[at..])
}

/// Finds where the payload begins: just after the first "Binary:\n".
pub fn find_payload(raw: &[u8]) -> (r: Option<usize>)
    ensures
        match r {
            Some(s) => payload_start(raw@) == Some(s as int) && s <= raw@.len(),
            None => payload_start(raw@) is None,
        },
{
    let marker: [u8; 8] = [66, 105, 110, 97, 114, 121, 58, 10];
    proof {
        assert(marker@ =~= payload_marker());
    }
    let len = raw.len();
    match find_bytes(raw, &marker) {
        Some(i) => {
            proof {
                assert(i + 8 <= len);
                assert(first_marker_at(raw@, i as int));
                let c = choose|c: int| first_marker_at(raw@, c);
                assert(c == i) by {
                    if c < i {
                        assert(!occurs_at(raw@, payload_marker(), c));
                    }
                    if i < c {
                        assert(!occurs_at(raw@, payload_marker(), i as int));
                    }
                }
            }
            Some(i + 8)
        },
        None => {
            proof {
                assert forall|i: int| !first_marker_at(raw@, i) by {
                    if first_marker_at(raw@, i) {
                        assert(occurs_at(raw@, marker@, i));
                    }
                }
            }
            None
        },
    }
}

proof fn lemma_record_in_bounds(j: int, v: int, n: int, points: int)
    requires
        0 <= j < points,
        0 <= v < n,
    ensures
        0 <= 16 * (j * n + v),
        16 * (j * n + v) + 16 <= 16 * n * points,
{
    assert(j * n + v + 1 <= n * points) by (nonlinear_arith)
        requires
            0 <= j < points,
            0 <= v < n,
    ;
    assert(0 <= j * n) by (nonlinear_arith)
        requires
            0 <= j,
            0 <= n,
    ;
    assert(16 * (n * points) == 16 * n * points) by (nonlinear_arith);
}

/// Reads `points` samples of each of `n` variables from the payload, record
/// `k` belonging to variable `k % n`.
pub fn decode_payload(payload: &[u8], n: usize, points: usize) -> (r: Result<
    (Vec<Vec<u64>>, Vec<Vec<u64>>),
    SimulationError,
>)
    ensures
        match payload_error(payload@.len(), n as nat, points as nat) {
            Some(e) => r is Err && r->Err_0@ == e,
            None => r is Ok && r->Ok_0.0@.map_values(|x: Vec<u64>| x@) == reals_of(
                payload@,
                n as nat,
                points as nat,
            ) && r->Ok_0.1@.map_values(|x: Vec<u64>| x@) == imags_of(
                payload@,
                n as nat,
                points as nat,
            ),
        },
{
    let len = payload.len();
    if len % 16 != 0 {
        return Err(SimulationError::UnexpectedEof);
    }
    let records = len / 16;
    if n != 0 && points > records / n {
        proof {
            assert(16 * n * points > len) by (nonlinear_arith)
                requires
                    n > 0,
                    points > records / n,
                    records == len / 16,
                    len % 16 == 0,
            ;
        }
        return Err(SimulationError::UnexpectedEof);
    }
    proof {
        if n != 0 {
            assert(n * points <= records) by (nonlinear_arith)
                requires
                    n > 0,
                    points <= records / n,
            ;
        }
        assert(16 * n * points == 16 * (n * points)) by (nonlinear_arith);
    }
    if n * points != records {
        return Err(SimulationError::MalformedHeader(None));
    }
    let mut reals: Vec<Vec<u64>> = Vec::new();
    let mut imags: Vec<Vec<u64>> = Vec::new();
    let mut v: usize = 0;
    while v < n
        invariant
            len == payload@.len(),
            16 * n * points == len,
            v <= n,
            reals@.len() == v,
            imags@.len() == v,
            forall|a: int|
                0 <= a < v ==> #[trigger] reals@[a]@ == reals_of(payload@, n as nat, points as nat)[a],
            forall|a: int|
                0 <= a < v ==> #[trigger] imags@[a]@ == imags_of(payload@, n as nat, points as nat)[a],
        decreases n - v,
    {
        let mut re: Vec<u64> = Vec::new();
        let mut im: Vec<u64> = Vec::new();
        let mut j: usize = 0;
        while j < points
            invariant
                len == payload@.len(),
                16 * n * points == len,
                v < n,
                j <= points,
                re@.len() == j,
                im@.len() == j,
                forall|b: int|
                    0 <= b < j ==> #[trigger] re@[b] == real_bits(payload@, n as int, v as int, b),
                forall|b: int|
                    0 <= b < j ==> #[trigger] im@[b] == imag_bits(payload@, n as int, v as int, b),
            decreases points - j,
        {
            proof {
                lemma_record_in_bounds(j as int, v as int, n as int, points as int);
            }
            let at = 16 * (j * n + v);
            re.push(read_u64_le(payload, at));
            im.push(read_u64_le(payload, at + 8));
            j += 1;
        }
        proof {
            assert(re@ =~= reals_of(payload@, n as nat, points as nat)[v as int]);
            assert(im@ =~= imags_of(payload@, n as nat, points as nat)[v as int]);
        }
        reals.push(re);
        imags.push(im);
        v += 1;
    }
    proof {
        assert(reals@.map_values(|x: Vec<u64>| x@) =~= reals_of(payload@, n as nat, points as nat));
        assert(imags@.map_values(|x: Vec<u64>| x@) =~= imags_of(payload@, n as nat, points as nat));
    }
    Ok((reals, imags))
}

} // verus!
