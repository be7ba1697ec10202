//! What the protocol absorbs into the transcript, and draws from it.

use vstd::arithmetic::power2::*;
use vstd::prelude::*;
use vstd::utf8::*;

use crate::bits;
use crate::bytes;
use crate::errors;
use crate::field::TowerField;
use crate::hashers;
use crate::hashers::Hasher;
use crate::transcript;
use crate::transcript::{Op, Transcript};

verus! {

/// A number as it is absorbed.
pub open spec fn number(label: Seq<char>, value: nat) -> Seq<u8> {
    encode_utf8(label) + bytes::le_bytes(value, 8)
}

/// A message as it is absorbed.
pub open spec fn message(label: Seq<char>, body: Seq<u8>) -> Seq<u8> {
    transcript::framed(encode_utf8(label), body)
}

/// The header of a chiplet as it is absorbed.
pub open spec fn header(name: Seq<char>, rows: nat, cols: nat, root: Seq<u8>) -> Seq<u8> {
    message("chiplet_name"@, encode_utf8(name)) + number("chiplet_num_rows"@, rows) + number(
        "chiplet_num_cols"@,
        cols,
    ) + message("chiplet_root"@, root)
}

/// The operations that absorb the header of a chiplet.
pub open spec fn header_ops<H: Hasher>(
    name: Seq<char>,
    rows: u64,
    cols: u64,
    root: Seq<u8>,
) -> Seq<Op> {
    seq![
        Op::AppendMessage {
            label: encode_utf8("chiplet_name"@),
            digest: hashers::digest::<H>(encode_utf8(name)),
        },
        Op::AppendU64 { label: encode_utf8("chiplet_num_rows"@), value: rows },
        Op::AppendU64 { label: encode_utf8("chiplet_num_cols"@), value: cols },
        Op::AppendMessage {
            label: encode_utf8("chiplet_root"@),
            digest: hashers::digest::<H>(root),
        },
    ]
}

/// Absorbs the header of a chiplet: its name, its dimensions and its Merkle
/// root.
pub fn absorb_chiplet_header<H: Hasher>(
    transcript: &mut Transcript<H>,
    name: &str,
    num_rows: usize,
    num_cols: usize,
    root: &[u8; 32],
)
    ensures
        final(transcript).absorbed() == old(transcript).absorbed() + header(
            name@,
            num_rows as nat,
            num_cols as nat,
            root@,
        ),
        transcript::ops(final(transcript).recorded()) == transcript::ops(
            old(transcript).recorded(),
        ) + header_ops::<H>(name@, num_rows as u64, num_cols as u64, root@),
{
    transcript.append_message("chiplet_name".as_bytes(), name.as_bytes());
    transcript.append_u64("chiplet_num_rows".as_bytes(), num_rows as u64);
    transcript.append_u64("chiplet_num_cols".as_bytes(), num_cols as u64);
    transcript.append_message("chiplet_root".as_bytes(), root);
    proof {
        assert(transcript.absorbed() =~= old(transcript).absorbed() + header(
            name@,
            num_rows as nat,
            num_cols as nat,
            root@,
        ));
        assert(transcript::ops(transcript.recorded()) =~= transcript::ops(
            old(transcript).recorded(),
        ) + header_ops::<H>(name@, num_rows as u64, num_cols as u64, root@));
    }
}

/// A bus's value as it is absorbed: its name, then the value.
pub open spec fn bus_value<F: TowerField>(
    id_label: Seq<char>,
    value_label: Seq<char>,
    entry: (String, F),
) -> Seq<u8> {
    message(id_label, encode_utf8(entry.0@)) + (encode_utf8(value_label) + bytes::le_bytes(
        entry.1.raw(),
        F::width(),
    ))
}

/// The values of buses as they are absorbed.
pub open spec fn bus_values<F: TowerField>(
    id_label: Seq<char>,
    value_label: Seq<char>,
    entries: Seq<(String, F)>,
) -> Seq<u8>
    decreases entries.len(),
{
    if entries.len() == 0 {
        Seq::empty()
    } else {
        bus_values(id_label, value_label, entries.drop_last()) + bus_value(
            id_label,
            value_label,
            entries.last(),
        )
    }
}

/// The operations that absorb the values of buses.
pub open spec fn bus_value_ops<F: TowerField, H: Hasher>(
    id_label: Seq<char>,
    value_label: Seq<char>,
    entries: Seq<(String, F)>,
) -> Seq<Op>
    decreases entries.len(),
{
    if entries.len() == 0 {
        Seq::empty()
    } else {
        bus_value_ops::<F, H>(id_label, value_label, entries.drop_last()) + seq![
            Op::AppendMessage {
                label: encode_utf8(id_label),
                digest: hashers::digest::<H>(encode_utf8(entries.last().0@)),
            },
            Op::AppendField {
                label: encode_utf8(value_label),
                digest: hashers::digest::<H>(
                    bytes::le_bytes(entries.last().1.raw(), F::width()),
                ),
            },
        ]
    }
}

/// The operation that absorbs a number of entries.
pub open spec fn count_op(label: Seq<char>, count: nat) -> Seq<Op> {
    seq![Op::AppendU64 { label: encode_utf8(label), value: count as u64 }]
}

/// Absorbs the values of buses, their number first.
fn absorb_bus_values<F: TowerField, H: Hasher>(
    transcript: &mut Transcript<H>,
    count_label: &'static str,
    id_label: &'static str,
    value_label: &'static str,
    entries: &[(String, F)],
)
    ensures
        final(transcript).absorbed() == old(transcript).absorbed() + (number(
            count_label@,
            entries@.len(),
        ) + bus_values(id_label@, value_label@, entries@)),
        transcript::ops(final(transcript).recorded()) == transcript::ops(
            old(transcript).recorded(),
        ) + count_op(count_label@, entries@.len()) + bus_value_ops::<F, H>(
            id_label@,
            value_label@,
            entries@,
        ),
{
    transcript.append_u64(count_label.as_bytes(), entries.len() as u64);
    let ghost head = transcript.absorbed();
    let ghost done = transcript::ops(transcript.recorded());
    let mut i: usize = 0;
    proof {
        assert(entries@.take(0) =~= Seq::<(String, F)>::empty());
        assert(head + bus_values(id_label@, value_label@, entries@.take(0)) =~= head);
        assert(done + bus_value_ops::<F, H>(id_label@, value_label@, entries@.take(0)) =~= done);
        assert(done =~= transcript::ops(old(transcript).recorded()) + count_op(
            count_label@,
            entries@.len(),
        ));
    }
    while i < entries.len()
        invariant
            i <= entries@.len(),
            transcript.absorbed() == head + bus_values(
                id_label@,
                value_label@,
                entries@.take(i as int),
            ),
            transcript::ops(transcript.recorded()) == done + bus_value_ops::<F, H>(
                id_label@,
                value_label@,
                entries@.take(i as int),
            ),
        decreases entries@.len() - i,
    {
        let entry: &(String, F) = &entries[i];
        transcript.append_message(id_label.as_bytes(), entry.0.as_str().as_bytes());
        transcript.append_field(value_label.as_bytes(), entry.1);
        proof {
            assert(entries@.take(i + 1).drop_last() =~= entries@.take(i as int));
            assert(transcript.absorbed() =~= head + bus_values(
                id_label@,
                value_label@,
                entries@.take(i + 1),
            ));
            assert(transcript::ops(transcript.recorded()) =~= done + bus_value_ops::<F, H>(
                id_label@,
                value_label@,
                entries@.take(i + 1),
            ));
        }
        i = i + 1;
    }
    proof {
        assert(entries@.take(entries@.len() as int) =~= entries@);
        assert(transcript.absorbed() =~= old(transcript).absorbed() + (number(
            count_label@,
            entries@.len(),
        ) + bus_values(id_label@, value_label@, entries@)));
    }
}

/// Claimed bus sums as they are absorbed.
pub open spec fn claims<F: TowerField>(entries: Seq<(String, F)>) -> Seq<u8> {
    number("logup_claim_count"@, entries.len()) + bus_values(
        "logup_claim_bus_id"@,
        "logup_claim_sum"@,
        entries,
    )
}

/// Evaluations of bus columns as they are absorbed.
pub open spec fn evaluations<F: TowerField>(entries: Seq<(String, F)>) -> Seq<u8> {
    number("logup_h_count"@, entries.len()) + bus_values(
        "logup_h_bus_id"@,
        "logup_h_eval"@,
        entries,
    )
}

/// Heights of lookup buses as they are absorbed, their number first.
pub open spec fn heights(entries: Seq<(String, u64)>) -> Seq<u8> {
    number("lookup_bus_count"@, entries.len()) + bus_heights(entries)
}

/// Absorbs the claimed bus sums, before the challenges that must depend on
/// them.
pub fn absorb_logup_claimed_sums<F: TowerField, H: Hasher>(
    transcript: &mut Transcript<H>,
    claimed_sums: &[(String, F)],
)
    ensures
        final(transcript).absorbed() == old(transcript).absorbed() + (number(
            "logup_claim_count"@,
            claimed_sums@.len(),
        ) + bus_values("logup_claim_bus_id"@, "logup_claim_sum"@, claimed_sums@)),
        final(transcript).absorbed() == old(transcript).absorbed() + claims(claimed_sums@),
        transcript::ops(final(transcript).recorded()) == transcript::ops(
            old(transcript).recorded(),
        ) + count_op("logup_claim_count"@, claimed_sums@.len()) + bus_value_ops::<F, H>(
            "logup_claim_bus_id"@,
            "logup_claim_sum"@,
            claimed_sums@,
        ),
{
    absorb_bus_values(
        transcript,
        "logup_claim_count",
        "logup_claim_bus_id",
        "logup_claim_sum",
        claimed_sums,
    );
}

/// Absorbs the evaluations of the bus columns.
pub fn absorb_logup_h_evals<F: TowerField, H: Hasher>(
    transcript: &mut Transcript<H>,
    h_evals: &[(String, F)],
)
    ensures
        final(transcript).absorbed() == old(transcript).absorbed() + (number(
            "logup_h_count"@,
            h_evals@.len(),
        ) + bus_values("logup_h_bus_id"@, "logup_h_eval"@, h_evals@)),
        final(transcript).absorbed() == old(transcript).absorbed() + evaluations(h_evals@),
        transcript::ops(final(transcript).recorded()) == transcript::ops(
            old(transcript).recorded(),
        ) + count_op("logup_h_count"@, h_evals@.len()) + bus_value_ops::<F, H>(
            "logup_h_bus_id"@,
            "logup_h_eval"@,
            h_evals@,
        ),
{
    absorb_bus_values(
        transcript,
        "logup_h_count",
        "logup_h_bus_id",
        "logup_h_eval",
        h_evals,
    );
}

/// The heights of lookup buses as they are absorbed.
pub open spec fn bus_heights(entries: Seq<(String, u64)>) -> Seq<u8>
    decreases entries.len(),
{
    if entries.len() == 0 {
        Seq::empty()
    } else {
        bus_heights(entries.drop_last()) + message(
            "lookup_bus_id"@,
            encode_utf8(entries.last().0@),
        ) + number("lookup_bus_n_max"@, entries.last().1 as nat)
    }
}

/// The operations that absorb the heights of lookup buses.
pub open spec fn height_ops<H: Hasher>(entries: Seq<(String, u64)>) -> Seq<Op>
    decreases entries.len(),
{
    if entries.len() == 0 {
        Seq::empty()
    } else {
        height_ops::<H>(entries.drop_last()) + seq![
            Op::AppendMessage {
                label: encode_utf8("lookup_bus_id"@),
                digest: hashers::digest::<H>(encode_utf8(entries.last().0@)),
            },
            Op::AppendU64 {
                label: encode_utf8("lookup_bus_n_max"@),
                value: entries.last().1,
            },
        ]
    }
}

/// Absorbs the heights of the lookup buses, their number first.
pub fn absorb_lookup_bus_heights<H: Hasher>(
    transcript: &mut Transcript<H>,
    entries: &[(String, u64)],
)
    ensures
        final(transcript).absorbed() == old(transcript).absorbed() + (number(
            "lookup_bus_count"@,
            entries@.len(),
        ) + bus_heights(entries@)),
        final(transcript).absorbed() == old(transcript).absorbed() + heights(entries@),
        transcript::ops(final(transcript).recorded()) == transcript::ops(
            old(transcript).recorded(),
        ) + count_op("lookup_bus_count"@, entries@.len()) + height_ops::<H>(entries@),
{
    transcript.append_u64("lookup_bus_count".as_bytes(), entries.len() as u64);
    let ghost head = transcript.absorbed();
    let ghost done = transcript::ops(transcript.recorded());
    let mut i: usize = 0;
    proof {
        assert(entries@.take(0) =~= Seq::<(String, u64)>::empty());
        assert(head + bus_heights(entries@.take(0)) =~= head);
        assert(done + height_ops::<H>(entries@.take(0)) =~= done);
        assert(done =~= transcript::ops(old(transcript).recorded()) + count_op(
            "lookup_bus_count"@,
            entries@.len(),
        ));
    }
    while i < entries.len()
        invariant
            i <= entries@.len(),
            transcript.absorbed() == head + bus_heights(entries@.take(i as int)),
            transcript::ops(transcript.recorded()) == done + height_ops::<H>(
                entries@.take(i as int),
            ),
        decreases entries@.len() - i,
    {
        let entry: &(String, u64) = &entries[i];
        transcript.append_message("lookup_bus_id".as_bytes(), entry.0.as_str().as_bytes());
        transcript.append_u64("lookup_bus_n_max".as_bytes(), entry.1);
        proof {
            assert(entries@.take(i + 1).drop_last() =~= entries@.take(i as int));
            assert(transcript.absorbed() =~= head + bus_heights(entries@.take(i + 1)));
            assert(transcript::ops(transcript.recorded()) =~= done + height_ops::<H>(
                entries@.take(i + 1),
            ));
        }
        i = i + 1;
    }
    proof {
        assert(entries@.take(entries@.len() as int) =~= entries@);
        assert(transcript.absorbed() =~= old(transcript).absorbed() + (number(
            "lookup_bus_count"@,
            entries@.len(),
        ) + bus_heights(entries@)));
    }
}

/// What has been absorbed after `k` draws of a bus coordinate.
pub open spec fn after_draws<H: Hasher>(before: Seq<u8>, k: nat) -> Seq<u8>
    decreases k,
{
    if k == 0 {
        before
    } else {
        let s = after_draws::<H>(before, (k - 1) as nat) + encode_utf8("r_bus"@);
        s + hashers::digest::<H>(s)
    }
}

/// Coordinate `k` of a bus's point.
pub open spec fn coordinate<F: TowerField, H: Hasher>(before: Seq<u8>, k: nat) -> nat {
    bytes::le_value(
        hashers::digest::<H>(after_draws::<H>(before, k) + encode_utf8("r_bus"@)).take(
            F::width() as int,
        ),
    )
}

/// The coordinates of a bus's point.
pub open spec fn coordinates<F: TowerField, H: Hasher>(before: Seq<u8>, n: nat) -> Seq<nat> {
    Seq::new(n, |k: int| coordinate::<F, H>(before, k as nat))
}

/// The stored bits of field elements.
pub open spec fn raws<F: TowerField>(s: Seq<F>) -> Seq<nat> {
    s.map_values(|x: F| x.raw())
}

/// The error for a field that is wider than a hash.
pub open spec fn too_wide<F: TowerField>() -> errors::Error {
    errors::Error::Transcript(
        transcript::Error::FieldTooLargeForChallenge {
            field_bytes: F::width() as usize,
            max_entropy_bytes: 32,
        },
    )
}

/// The operations that absorb a bus's name and draw `k` coordinates.
pub open spec fn draw_ops<H: Hasher>(bus_id: Seq<char>, k: nat) -> Seq<Op> {
    seq![
        Op::AppendMessage {
            label: encode_utf8("lookup_bus_id"@),
            digest: hashers::digest::<H>(encode_utf8(bus_id)),
        },
    ] + Seq::new(k, |i: int| Op::ChallengeField { label: encode_utf8("r_bus"@) })
}

/// Absorbs the name of a lookup bus, and draws its point.
pub fn challenge_r_bus<F: TowerField, H: Hasher>(
    transcript: &mut Transcript<H>,
    bus_id: &str,
    num_vars: usize,
) -> (r: Result<Vec<F>, errors::Error>)
    ensures
        ({
            let before = old(transcript).absorbed() + message(
                "lookup_bus_id"@,
                encode_utf8(bus_id@),
            );
            match r {
                Ok(coords) => {
                    &&& num_vars == 0 || F::width() <= 32
                    &&& raws(coords@) == coordinates::<F, H>(before, num_vars as nat)
                    &&& final(transcript).absorbed() == after_draws::<H>(before, num_vars as nat)
                    &&& transcript::ops(final(transcript).recorded()) == transcript::ops(
                        old(transcript).recorded(),
                    ) + draw_ops::<H>(bus_id@, num_vars as nat)
                },
                Err(e) => {
                    &&& num_vars > 0 && F::width() > 32
                    &&& e == too_wide::<F>()
                    &&& final(transcript).absorbed() == after_draws::<H>(before, 1)
                    &&& transcript::ops(final(transcript).recorded()) == transcript::ops(
                        old(transcript).recorded(),
                    ) + draw_ops::<H>(bus_id@, 1)
                },
            }
        }),
{
    transcript.append_message("lookup_bus_id".as_bytes(), bus_id.as_bytes());
    let ghost before = transcript.absorbed();
    let ghost ops0 = transcript::ops(old(transcript).recorded());
    let mut coords: Vec<F> = Vec::new();
    let mut k: usize = 0;
    proof {
        assert(transcript::ops(transcript.recorded()) =~= ops0 + draw_ops::<H>(bus_id@, 0));
    }
    while k < num_vars
        invariant
            k <= num_vars,
            k > 0 ==> F::width() <= 32,
            before == old(transcript).absorbed() + message(
                "lookup_bus_id"@,
                encode_utf8(bus_id@),
            ),
            coords@.len() == k,
            ops0 == transcript::ops(old(transcript).recorded()),
            transcript.absorbed() == after_draws::<H>(before, k as nat),
            transcript::ops(transcript.recorded()) == ops0 + draw_ops::<H>(bus_id@, k as nat),
            forall|j: int|
                0 <= j < k ==> (#[trigger] coords@[j]).raw() == coordinate::<F, H>(
                    before,
                    j as nat,
                ),
        decreases num_vars - k,
    {
        match transcript.challenge_field::<F>("r_bus".as_bytes()) {
            Ok(x) => {
                coords.push(x);
                assert(transcript::ops(transcript.recorded()) =~= ops0 + draw_ops::<H>(
                    bus_id@,
                    (k + 1) as nat,
                ));
            },
            Err(e) => {
                proof {
                    assert(k == 0);
                    assert(transcript::ops(transcript.recorded()) =~= ops0 + draw_ops::<H>(
                        bus_id@,
                        1,
                    ));
                    let drawn = before + encode_utf8("r_bus"@);
                    assert(after_draws::<H>(before, 0) == before);
                    assert(after_draws::<H>(before, 1) == drawn + hashers::digest::<H>(drawn));
                }
                return Err(errors::Error::Transcript(e));
            },
        }
        k = k + 1;
    }
    proof {
        assert(raws(coords@) =~= coordinates::<F, H>(before, num_vars as nat));
    }
    Ok(coords)
}

// ---------------------------------------------------------------
// All lookup buses
// ---------------------------------------------------------------

/// The number of variables of a bus.
pub open spec fn bus_vars(entry: (String, u64)) -> nat {
    bits::floor_log2(entry.1 as nat)
}

/// Every height is a power of two.
pub open spec fn heights_ok(entries: Seq<(String, u64)>) -> bool {
    forall|i: int|
        0 <= i < entries.len() ==> bits::is_power_of_two((#[trigger] entries[i]).1 as nat)
}

/// What has been absorbed after the points of the first `n` buses.
pub open spec fn after_buses<H: Hasher>(
    before: Seq<u8>,
    entries: Seq<(String, u64)>,
    n: nat,
) -> Seq<u8>
    decreases n,
{
    if n == 0 {
        before
    } else {
        let e = entries[n - 1];
        after_draws::<H>(
            after_buses::<H>(before, entries, (n - 1) as nat) + message(
                "lookup_bus_id"@,
                encode_utf8(e.0@),
            ),
            bus_vars(e),
        )
    }
}

/// The operations that draw the points of the first `n` buses.
pub open spec fn bus_ops<H: Hasher>(entries: Seq<(String, u64)>, n: nat) -> Seq<Op>
    decreases n,
{
    if n == 0 {
        Seq::empty()
    } else {
        bus_ops::<H>(entries, (n - 1) as nat) + draw_ops::<H>(
            entries[n - 1].0@,
            bus_vars(entries[n - 1]),
        )
    }
}

/// The first bus with a coordinate to draw.
pub open spec fn is_first_draw(entries: Seq<(String, u64)>, i: int) -> bool {
    &&& 0 <= i < entries.len()
    &&& bus_vars(entries[i]) > 0
    &&& forall|j: int| 0 <= j < i ==> bus_vars(#[trigger] entries[j]) == 0
}

/// The points of the first `n` buses, by bus; of buses with one name the last
/// counts.
pub open spec fn bus_points<F: TowerField, H: Hasher>(
    before: Seq<u8>,
    entries: Seq<(String, u64)>,
    n: nat,
) -> Map<Seq<char>, Seq<nat>>
    decreases n,
{
    if n == 0 {
        Map::empty()
    } else {
        let e = entries[n - 1];
        bus_points::<F, H>(before, entries, (n - 1) as nat).insert(
            e.0@,
            coordinates::<F, H>(
                after_buses::<H>(before, entries, (n - 1) as nat) + message(
                    "lookup_bus_id"@,
                    encode_utf8(e.0@),
                ),
                bus_vars(e),
            ),
        )
    }
}

/// `a` comes before `b` in lexicographic order: at the first byte in which
/// they differ `a` has the smaller one, or has ended.
pub open spec fn bytes_before(a: Seq<u8>, b: Seq<u8>) -> bool {
    exists|k: int| #[trigger] differ_at(a, b, k)
}

/// The first `k` bytes agree, and `a` has the smaller one there, or has ended.
pub open spec fn differ_at(a: Seq<u8>, b: Seq<u8>, k: int) -> bool {
    &&& 0 <= k <= a.len()
    &&& k < b.len()
    &&& forall|i: int| 0 <= i < k ==> a[i] == #[trigger] b[i]
    &&& k == a.len() || a[k] < b[k]
}

/// Names are ordered by their encodings.
pub open spec fn name_before(a: Seq<char>, b: Seq<char>) -> bool {
    bytes_before(encode_utf8(a), encode_utf8(b))
}

/// `points` lists a map in order of name: every key once, with its value.
pub open spec fn lists<F: TowerField>(
    points: Seq<(String, Vec<F>)>,
    map: Map<Seq<char>, Seq<nat>>,
) -> bool {
    &&& forall|i: int, j: int|
        0 <= i < j < points.len() ==> name_before(
            (#[trigger] points[i]).0@,
            (#[trigger] points[j]).0@,
        )
    &&& forall|i: int|
        0 <= i < points.len() ==> map.dom().contains((#[trigger] points[i]).0@)
            && map[points[i].0@] == raws(points[i].1@)
    &&& forall|k: Seq<char>| #[trigger]
        map.dom().contains(k) ==> exists|i: int|
            0 <= i < points.len() && (#[trigger] points[i]).0@ == k
}

proof fn lemma_before_transitive(a: Seq<u8>, b: Seq<u8>, c: Seq<u8>)
    requires
        bytes_before(a, b),
        bytes_before(b, c),
    ensures
        bytes_before(a, c),
{
    let j = choose|j: int| #[trigger] differ_at(a, b, j);
    let k = choose|k: int| #[trigger] differ_at(b, c, k);
    if j <= k {
        assert forall|i: int| 0 <= i < j implies a[i] == #[trigger] c[i] by {
            assert(a[i] == b[i]);
        }
        if j < k {
            assert(b[j] == c[j]);
        }
        assert(differ_at(a, c, j));
    } else {
        assert forall|i: int| 0 <= i < k implies a[i] == #[trigger] c[i] by {
            assert(a[i] == b[i]);
        }
        assert(a[k] == b[k]);
        assert(differ_at(a, c, k));
    }
}

proof fn lemma_before_is_strict(a: Seq<u8>, b: Seq<u8>)
    requires
        bytes_before(a, b),
    ensures
        a != b,
        !bytes_before(b, a),
{
    let j = choose|j: int| #[trigger] differ_at(a, b, j);
    if bytes_before(b, a) {
        let k = choose|k: int| #[trigger] differ_at(b, a, k);
        if j < k {
            assert(b[j] == a[j]);
        } else if k < j {
            assert(a[k] == b[k]);
        }
    }
}

/// Whether `a` comes before `b`; of two that differ one comes first.
fn comes_before(a: &[u8], b: &[u8]) -> (r: bool)
    ensures
        r == bytes_before(a@, b@),
        !r && a@ != b@ ==> bytes_before(b@, a@),
{
    let mut k: usize = 0;
    while k < a.len() && k < b.len()
        invariant
            k <= a@.len(),
            k <= b@.len(),
            forall|i: int| 0 <= i < k ==> a@[i] == #[trigger] b@[i],
        decreases a@.len() - k,
    {
        if a[k] < b[k] {
            assert(differ_at(a@, b@, k as int));
            return true;
        }
        if b[k] < a[k] {
            proof {
                assert(differ_at(b@, a@, k as int));
                lemma_before_is_strict(b@, a@);
            }
            return false;
        }
        k = k + 1;
    }
    if k < b.len() {
        assert(differ_at(a@, b@, k as int));
        return true;
    }
    proof {
        if k < a@.len() {
            assert(differ_at(b@, a@, k as int));
            lemma_before_is_strict(b@, a@);
        } else {
            assert(a@ =~= b@);
            if bytes_before(a@, b@) {
                lemma_before_is_strict(a@, b@);
            }
        }
    }
    false
}

/// Different names have different encodings.
proof fn lemma_names_differ(a: Seq<char>, b: Seq<char>)
    requires
        encode_utf8(a) == encode_utf8(b),
    ensures
        a == b,
{
    encode_utf8_decode_utf8(a);
    encode_utf8_decode_utf8(b);
}

/// Enters a point under a name: in place of the one that stands there, or
/// between its neighbours.
fn enter<F: TowerField>(
    points: &mut Vec<(String, Vec<F>)>,
    name: &String,
    coords: Vec<F>,
    Ghost(map): Ghost<Map<Seq<char>, Seq<nat>>>,
)
    requires
        lists(old(points)@, map),
    ensures
        lists(final(points)@, map.insert(name@, raws(coords@))),
{
    let ghost before = points@;
    let ghost next = map.insert(name@, raws(coords@));
    let mut i: usize = 0;
    while i < points.len() && comes_before(
        points[i].0.as_str().as_bytes(),
        name.as_str().as_bytes(),
    )
        invariant
            i <= points@.len(),
            points@ == before,
            forall|j: int| 0 <= j < i ==> name_before((#[trigger] before[j]).0@, name@),
        decreases points@.len() - i,
    {
        i = i + 1;
    }
    proof {
        assert forall|j: int| 0 <= j < i implies (#[trigger] before[j]).0@ != name@ by {
            lemma_before_is_strict(encode_utf8(before[j].0@), encode_utf8(name@));
        }
    }
    if i < points.len() && points[i].0 == *name {
        points.set(i, (name.clone(), coords));
        proof {
            assert forall|a: int, b: int| 0 <= a < b < points@.len() implies name_before(
                (#[trigger] points@[a]).0@,
                (#[trigger] points@[b]).0@,
            ) by {
                assert(name_before(before[a].0@, before[b].0@));
            }
            assert forall|a: int| 0 <= a < points@.len() implies next.dom().contains(
                (#[trigger] points@[a]).0@,
            ) && next[points@[a].0@] == raws(points@[a].1@) by {
                if a != i {
                    assert(points@[a] == before[a]);
                    assert(map.dom().contains(before[a].0@));
                    if i < a {
                        assert(name_before(before[i as int].0@, before[a].0@));
                        lemma_before_is_strict(encode_utf8(name@), encode_utf8(before[a].0@));
                    }
                }
            }
            assert forall|k: Seq<char>| #[trigger] next.dom().contains(k) implies exists|a: int|
                0 <= a < points@.len() && (#[trigger] points@[a]).0@ == k by {
                if k == name@ {
                    assert(points@[i as int].0@ == k);
                } else {
                    assert(map.dom().contains(k));
                    let a = choose|a: int| 0 <= a < before.len() && (#[trigger] before[a]).0@ == k;
                    assert(points@[a].0@ == k);
                }
            }
        }
        return;
    }
    proof {
        assert forall|j: int| i <= j < before.len() implies name_before(
            name@,
            (#[trigger] before[j]).0@,
        ) by {
            let first = encode_utf8(before[i as int].0@);
            if first == encode_utf8(name@) {
                lemma_names_differ(before[i as int].0@, name@);
            }
            assert(bytes_before(encode_utf8(name@), first));
            if i < j {
                assert(name_before(before[i as int].0@, before[j].0@));
                lemma_before_transitive(encode_utf8(name@), first, encode_utf8(before[j].0@));
            }
        }
    }
    points.insert(i, (name.clone(), coords));
    proof {
        assert forall|a: int, b: int| 0 <= a < b < points@.len() implies name_before(
            (#[trigger] points@[a]).0@,
            (#[trigger] points@[b]).0@,
        ) by {
            let (x, y) = (
                if a < i {
                    a
                } else {
                    a - 1
                },
                if b < i {
                    b
                } else {
                    b - 1
                },
            );
            if a != i && b != i {
                assert(name_before(before[x].0@, before[y].0@));
            } else if a == i {
                assert(name_before(name@, before[y].0@));
            } else {
                assert(name_before(before[x].0@, name@));
            }
        }
        assert forall|a: int| 0 <= a < points@.len() implies next.dom().contains(
            (#[trigger] points@[a]).0@,
        ) && next[points@[a].0@] == raws(points@[a].1@) by {
            if a != i {
                let x = if a < i {
                    a
                } else {
                    a - 1
                };
                assert(points@[a] == before[x]);
                assert(map.dom().contains(before[x].0@));
                if x >= i {
                    lemma_before_is_strict(encode_utf8(name@), encode_utf8(before[x].0@));
                }
            }
        }
        assert forall|k: Seq<char>| #[trigger] next.dom().contains(k) implies exists|a: int|
            0 <= a < points@.len() && (#[trigger] points@[a]).0@ == k by {
            if k == name@ {
                assert(points@[i as int].0@ == k);
            } else {
                assert(map.dom().contains(k));
                let x = choose|x: int| 0 <= x < before.len() && (#[trigger] before[x]).0@ == k;
                let a = if x < i {
                    x
                } else {
                    x + 1
                };
                assert(points@[a] == before[x]);
            }
        }
    }
}

/// Absorbs the heights of all lookup buses, and draws a point for each.
pub fn draw_lookup_bus_points<F: TowerField, H: Hasher>(
    transcript: &mut Transcript<H>,
    entries: &[(String, u64)],
) -> (r: Result<Vec<(String, Vec<F>)>, errors::Error>)
    ensures
        ({
            let before = old(transcript).absorbed() + (number(
                "lookup_bus_count"@,
                entries@.len(),
            ) + bus_heights(entries@));
            let done = transcript::ops(old(transcript).recorded()) + count_op(
                "lookup_bus_count"@,
                entries@.len(),
            ) + height_ops::<H>(entries@);
            match r {
                Ok(points) => {
                    &&& heights_ok(entries@)
                    &&& F::width() <= 32 || forall|i: int|
                        0 <= i < entries@.len() ==> bus_vars(#[trigger] entries@[i]) == 0
                    &&& lists(points@, bus_points::<F, H>(before, entries@, entries@.len()))
                    &&& final(transcript).absorbed() == after_buses::<H>(
                        before,
                        entries@,
                        entries@.len(),
                    )
                    &&& transcript::ops(final(transcript).recorded()) == done + bus_ops::<H>(
                        entries@,
                        entries@.len(),
                    )
                },
                Err(e) => if !heights_ok(entries@) {
                    &&& e.is_protocol(
                        "transcript"@,
                        "lookup bus N_max must be a non-zero power of two"@,
                    )
                    &&& *final(transcript) == *old(transcript)
                } else {
                    &&& e == too_wide::<F>()
                    &&& F::width() > 32
                    &&& exists|i: int|
                        {
                            &&& #[trigger] is_first_draw(entries@, i)
                            &&& final(transcript).absorbed() == after_draws::<H>(
                                after_buses::<H>(before, entries@, i as nat) + message(
                                    "lookup_bus_id"@,
                                    encode_utf8(entries@[i].0@),
                                ),
                                1,
                            )
                            &&& transcript::ops(final(transcript).recorded()) == done + (
                            bus_ops::<H>(entries@, i as nat) + draw_ops::<H>(entries@[i].0@, 1))
                        }
                },
            }
        }),
{
    let mut i: usize = 0;
    while i < entries.len()
        invariant
            i <= entries@.len(),
            *transcript == *old(transcript),
            forall|k: int|
                0 <= k < i ==> bits::is_power_of_two((#[trigger] entries@[k]).1 as nat),
        decreases entries@.len() - i,
    {
        if bits::log2_exact(entries[i].1 as u128).is_none() {
            assert(!bits::is_power_of_two(entries@[i as int].1 as nat));
            return Err(
                errors::Error::Protocol {
                    protocol: "transcript",
                    message: "lookup bus N_max must be a non-zero power of two",
                },
            );
        }
        i = i + 1;
    }
    absorb_lookup_bus_heights(transcript, entries);
    let ghost before = transcript.absorbed();
    let ghost done = transcript::ops(transcript.recorded());
    let mut points: Vec<(String, Vec<F>)> = Vec::new();
    let mut n: usize = 0;
    proof {
        assert(done + bus_ops::<H>(entries@, 0) =~= done);
    }
    while n < entries.len()
        invariant
            n <= entries@.len(),
            heights_ok(entries@),
            transcript.absorbed() == after_buses::<H>(before, entries@, n as nat),
            transcript::ops(transcript.recorded()) == done + bus_ops::<H>(entries@, n as nat),
            before == old(transcript).absorbed() + (number(
                "lookup_bus_count"@,
                entries@.len(),
            ) + bus_heights(entries@)),
            done == transcript::ops(old(transcript).recorded()) + count_op(
                "lookup_bus_count"@,
                entries@.len(),
            ) + height_ops::<H>(entries@),
            lists(points@, bus_points::<F, H>(before, entries@, n as nat)),
            F::width() <= 32 || forall|i: int|
                0 <= i < n ==> bus_vars(#[trigger] entries@[i]) == 0,
        decreases entries@.len() - n,
    {
        let entry: &(String, u64) = &entries[n];
        proof {
            assert(bits::is_power_of_two(entries@[n as int].1 as nat));
            lemma_height(entry.1);
        }
        let num_vars: usize = bits::ilog2(entry.1 as u128) as usize;
        match challenge_r_bus::<F, H>(transcript, entry.0.as_str(), num_vars) {
            Ok(coords) => {
                enter(
                    &mut points,
                    &entry.0,
                    coords,
                    Ghost(bus_points::<F, H>(before, entries@, n as nat)),
                );
                assert(transcript::ops(transcript.recorded()) =~= done + bus_ops::<H>(
                    entries@,
                    (n + 1) as nat,
                ));
            },
            Err(e) => {
                proof {
                    assert(is_first_draw(entries@, n as int));
                    assert(transcript::ops(transcript.recorded()) =~= done + (bus_ops::<H>(
                        entries@,
                        n as nat,
                    ) + draw_ops::<H>(entries@[n as int].0@, 1)));
                }
                return Err(e);
            },
        }
        n = n + 1;
    }
    Ok(points)
}

/// A power of two is not zero.
proof fn lemma_height(n: u64)
    requires
        bits::is_power_of_two(n as nat),
    ensures
        n > 0,
{
    let k = choose|k: nat| n as nat == #[trigger] pow2(k);
    lemma_pow2_pos(k);
}

/// Names are in the order of a dictionary: the first bytes decide, and where
/// they agree what follows; nothing comes before everything else.
pub proof fn law_dictionary_order(x: u8, s: Seq<u8>, y: u8, t: Seq<u8>)
    ensures
        bytes_before(seq![x] + s, seq![y] + t) <==> x < y || (x == y && bytes_before(s, t)),
        bytes_before(Seq::empty(), seq![y] + t),
        !bytes_before(s, Seq::empty()),
{
    let (a, b) = (seq![x] + s, seq![y] + t);
    assert(differ_at(Seq::empty(), b, 0));
    if x < y {
        assert(differ_at(a, b, 0));
    }
    if x == y && bytes_before(s, t) {
        let k = choose|k: int| #[trigger] differ_at(s, t, k);
        assert(a[k + 1] == s[k] || k == s.len());
        assert forall|i: int| 0 <= i < k + 1 implies a[i] == #[trigger] b[i] by {
            if i > 0 {
                assert(s[i - 1] == t[i - 1]);
            }
        }
        assert(differ_at(a, b, k + 1));
    }
    if bytes_before(a, b) {
        let k = choose|k: int| #[trigger] differ_at(a, b, k);
        if k > 0 {
            assert(a[0] == b[0]);
            assert forall|i: int| 0 <= i < k - 1 implies s[i] == #[trigger] t[i] by {
                assert(a[i + 1] == b[i + 1]);
            }
            assert(differ_at(s, t, k - 1));
        }
    }
}

} // verus!
