use crate::instruction::{linked, linked_at, Instruction};
use crate::machine::{halted, lemma_run_in_pieces, run, step, underflows, Config, World};
use crate::parser::{joined, shifted};
use vstd::prelude::*;

verus! {

// A session keeps its tape between fragments. This module shows what that
// amounts to: fragments run one after the other on one session do what
// the fragments written one after the other do as one program.

/// The world in which the next fragment starts: on the machine and the
/// output that the last one left, with the rest of the input.
pub open spec fn next_fragment(w: World) -> World {
    World { config: Config { machine: w.config.machine, ip: 0 }, consumed: 0, output: w.output }
}

/// The world `w` of a second fragment as the joined program sees it, `by`
/// instructions and `taken` input bytes further on.
pub open spec fn seen_from_joined(w: World, by: int, taken: int) -> World {
    World {
        config: Config { machine: w.config.machine, ip: w.config.ip + by },
        consumed: w.consumed + taken,
        output: w.output,
    }
}

/// A valid machine stays valid, and the instruction pointer within the
/// program, however long a linked program runs.
pub proof fn lemma_run_keeps_valid(p: Seq<Instruction>, input: Seq<u8>, w: World, fuel: nat)
    requires
        linked(p),
        w.config.machine.valid(),
        0 <= w.config.ip <= p.len(),
        0 <= w.consumed,
    ensures
        run(p, input, w, fuel).config.machine.valid(),
        0 <= run(p, input, w, fuel).config.ip <= p.len(),
        w.consumed <= run(p, input, w, fuel).consumed,
    decreases fuel,
{
    if fuel > 0 && !halted(p, w.config) && !underflows(p, w.config) {
        crate::machine::lemma_step_keeps_valid(p, input, w);
        lemma_run_keeps_valid(p, input, step(p, input, w), (fuel - 1) as nat);
    }
}

/// A run that has come to an end stays where it is.
pub proof fn lemma_ended_run_stays(p: Seq<Instruction>, input: Seq<u8>, w: World, fuel: nat)
    requires
        halted(p, w.config) || underflows(p, w.config),
    ensures
        run(p, input, w, fuel) == w,
{
}

/// Running on the rest of an input is running on the whole input from
/// where the rest begins.
pub proof fn lemma_run_on_rest_of_input(
    p: Seq<Instruction>,
    input: Seq<u8>,
    w: World,
    taken: int,
    fuel: nat,
)
    requires
        0 <= taken <= input.len(),
        0 <= w.consumed,
    ensures
        run(p, input, seen_from_joined(w, 0, taken), fuel) == seen_from_joined(
            run(p, input.skip(taken), w, fuel),
            0,
            taken,
        ),
    decreases fuel,
{
    let rest = input.skip(taken);
    let v = seen_from_joined(w, 0, taken);
    assert(v.config == w.config);
    if fuel > 0 && !halted(p, w.config) && !underflows(p, w.config) {
        if 0 <= w.consumed < rest.len() {
            assert(rest[w.consumed] == input[w.consumed + taken]);
        }
        assert(step(p, input, v) == seen_from_joined(step(p, rest, w), 0, taken));
        lemma_run_on_rest_of_input(p, input, step(p, rest, w), taken, (fuel - 1) as nat);
    }
}

/// While the first fragment runs, the joined program does the same:
/// after some `k` instructions it is where the first fragment stops.
proof fn lemma_front_runs(
    pa: Seq<Instruction>,
    pb: Seq<Instruction>,
    input: Seq<u8>,
    w: World,
    fuel: nat,
) -> (k: nat)
    requires
        linked(pa),
        w.config.machine.valid(),
        0 <= w.config.ip <= pa.len(),
    ensures
        k <= fuel,
        run(joined(pa, pb), input, w, k) == run(pa, input, w, fuel),
    decreases fuel,
{
    if fuel == 0 || halted(pa, w.config) || underflows(pa, w.config) {
        0
    } else {
        let p = joined(pa, pb);
        assert(p[w.config.ip] == pa[w.config.ip]);
        assert(step(p, input, w) == step(pa, input, w));
        crate::machine::lemma_step_keeps_valid(pa, input, w);
        let k = lemma_front_runs(pa, pb, input, step(pa, input, w), (fuel - 1) as nat);
        assert(run(p, input, w, k + 1) == run(p, input, step(p, input, w), k));
        k + 1
    }
}

/// Once the first fragment is over, the joined program does what the
/// second fragment does, `pa.len()` instructions further on.
proof fn lemma_back_runs(
    pa: Seq<Instruction>,
    pb: Seq<Instruction>,
    input: Seq<u8>,
    w: World,
    fuel: nat,
)
    requires
        linked(pb),
        pa.len() + pb.len() <= usize::MAX,
        w.config.machine.valid(),
        0 <= w.config.ip <= pb.len(),
    ensures
        run(joined(pa, pb), input, seen_from_joined(w, pa.len() as int, 0), fuel)
            == seen_from_joined(run(pb, input, w, fuel), pa.len() as int, 0),
    decreases fuel,
{
    let p = joined(pa, pb);
    let by = pa.len() as int;
    let v = seen_from_joined(w, by, 0);
    if fuel > 0 && !halted(pb, w.config) && !underflows(pb, w.config) {
        let i = w.config.ip;
        assert(p[i + by] == shifted(pb, by)[i]);
        assert(linked_at(pb, i));
        assert(step(p, input, v) == seen_from_joined(step(pb, input, w), by, 0));
        crate::machine::lemma_step_keeps_valid(pb, input, w);
        lemma_back_runs(pa, pb, input, step(pb, input, w), (fuel - 1) as nat);
    } else if fuel > 0 && !halted(pb, w.config) {
        assert(p[w.config.ip + by] == shifted(pb, by)[w.config.ip]);
    }
}

/// Fragments fed to one session run as one program.
///
/// Let a first fragment run to its end on a session, and a second one
/// come to an end on what the first has left: the same machine and
/// output, and the rest of the input. Then the two fragments joined into
/// one program, run from the start on the whole input, come to the same
/// end: the same tape and pointer, the same output, the same input taken,
/// and the instruction pointer where the second fragment has it in the
/// joined program.
pub proof fn lemma_fragments_run_as_one(
    pa: Seq<Instruction>,
    pb: Seq<Instruction>,
    input: Seq<u8>,
    w: World,
    first: nat,
    second: nat,
)
    requires
        linked(pa),
        linked(pb),
        pa.len() + pb.len() <= usize::MAX,
        w.config.machine.valid(),
        w.config.ip == 0,
        0 <= w.consumed <= input.len(),
        halted(pa, run(pa, input, w, first).config),
        run(pa, input, w, first).consumed <= input.len(),
        ({
            let left = run(pa, input, w, first);
            let end = run(pb, input.skip(left.consumed), next_fragment(left), second);
            halted(pb, end.config) || underflows(pb, end.config)
        }),
    ensures
        ({
            let left = run(pa, input, w, first);
            let end = run(pb, input.skip(left.consumed), next_fragment(left), second);
            run(joined(pa, pb), input, w, first + second) == seen_from_joined(
                end,
                pa.len() as int,
                left.consumed,
            )
        }),
{
    let p = joined(pa, pb);
    let by = pa.len() as int;
    let left = run(pa, input, w, first);
    let taken = left.consumed;
    let rest = input.skip(taken);
    let end = run(pb, rest, next_fragment(left), second);
    lemma_run_keeps_valid(pa, input, w, first);
    let k = lemma_front_runs(pa, pb, input, w, first);
    let more = (first + second - k) as nat;
    lemma_run_in_pieces(p, input, w, k, more);
    // The second fragment on the whole input, from where the rest begins.
    let begin = seen_from_joined(next_fragment(left), 0, taken);
    assert(left == seen_from_joined(begin, by, 0));
    lemma_back_runs(pa, pb, input, begin, more);
    lemma_run_on_rest_of_input(pb, input, next_fragment(left), taken, more);
    lemma_run_in_pieces(pb, rest, next_fragment(left), second, (first - k) as nat);
    lemma_ended_run_stays(pb, rest, end, (first - k) as nat);
}

/// A fragment that fails ends the joined program where it fails.
pub proof fn lemma_failed_fragment_ends_the_run(
    pa: Seq<Instruction>,
    pb: Seq<Instruction>,
    input: Seq<u8>,
    w: World,
    fuel: nat,
)
    requires
        linked(pa),
        w.config.machine.valid(),
        0 <= w.config.ip <= pa.len(),
        0 <= w.consumed,
        underflows(pa, run(pa, input, w, fuel).config),
    ensures
        run(joined(pa, pb), input, w, fuel) == run(pa, input, w, fuel),
        underflows(joined(pa, pb), run(pa, input, w, fuel).config),
{
    let p = joined(pa, pb);
    let left = run(pa, input, w, fuel);
    lemma_run_keeps_valid(pa, input, w, fuel);
    let k = lemma_front_runs(pa, pb, input, w, fuel);
    assert(p[left.config.ip] == pa[left.config.ip]);
    lemma_run_in_pieces(p, input, w, k, (fuel - k) as nat);
    lemma_ended_run_stays(p, input, left, (fuel - k) as nat);
}

} // verus!
