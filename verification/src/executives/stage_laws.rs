//! What the three stages of a colony do in a step: ants, colonies and the world.

use crate::bytes;
use crate::executives::ant_colony;
use crate::executives::ant_colony::{AntReplies, ColonyReplies, WorldReplies};
use crate::executives::lane;
use crate::executives::step;
use crate::executives::step::StepResult;
use crate::executives::step_laws;
use crate::experiments::ant_colony as colony;
use crate::experiments::ant_colony::{AntFrame, ColonyView, WorldView};
use crate::kernel::{Call, Ref64, RuntimeError};
use vstd::prelude::*;

verus! {

proof fn lemma_food_is_known(terrain: Seq<u8>, x: int, y: int, i: int)
    requires
        0 <= i,
        terrain.len() >= 8 + 6 * colony::food_count(terrain),
    ensures
        colony::is_known_from(terrain, x, y, i),
    decreases colony::food_count(terrain) - i,
{
    if i < colony::food_count(terrain) {
        lemma_food_is_known(terrain, x, y, i + 1);
    }
}

/// A frame that holds an ant that lives in the grid.
pub open spec fn holds_ant(content: Seq<u8>) -> bool {
    &&& content.len() >= 68
    &&& AntFrame::read(content).id != 0xffff_ffff
    &&& AntFrame::read(content).width > 0
    &&& AntFrame::read(content).height > 0
    &&& 4 * (AntFrame::read(content).width * AntFrame::read(content).height) <= usize::MAX
}

/// A terrain that holds all of its food sources.
pub open spec fn holds_terrain(terrain: Seq<u8>) -> bool {
    terrain.len() >= 8 + 6 * bytes::word_at(terrain, 4, 2)
}

/// An ant's step reads its own frame, the terrain and the field that is readable in its
/// epoch, all as its process. It then lays its record as it stands after its move, keeps
/// itself in its frame, and runs on as the class that it chose.
pub proof fn law_an_ant_reads_moves_and_lays(
    frame: Ref64,
    process: Ref64,
    epoch: u32,
    class: int,
    r: AntReplies,
    before: Seq<Call>,
    after: Seq<Call>,
    result: StepResult,
    content: Seq<u8>,
    terrain: Seq<u8>,
    field: Seq<u8>,
)
    requires
        ant_colony::ant_stepped(frame, process, epoch, class, r, before, after, result),
        frame.raw != 0,
        20 <= class <= 25,
        r.frame == Ok::<Seq<u8>, RuntimeError>(content),
        r.terrain == Ok::<Seq<u8>, RuntimeError>(terrain),
        r.field == Ok::<Seq<u8>, RuntimeError>(field),
        holds_ant(content),
        holds_terrain(terrain),
    ensures
        ({
            let ant = AntFrame::read(content);
            let choice = ant_colony::choice_of(
                ant,
                class,
                ant_colony::senses_of(ant, terrain, field),
            );
            let moved = ant_colony::chosen(choice->0);
            let did = step_laws::actions(after).skip(step_laws::actions(before).len() as int);
            &&& choice is Some
            &&& result == (StepResult::Yield { next: choice->0.next })
            &&& did.len() == 5
            &&& did[0] == (Call::ObjectBytes { actor: process, object: frame, reply: r.frame })
            &&& did[1] == (Call::ObjectBytes {
                actor: process,
                object: ant.terrain,
                reply: r.terrain,
            })
            &&& did[2] == (Call::ObjectBytes {
                actor: process,
                object: if epoch as int % 2 == 0 {
                    ant.field_a
                } else {
                    ant.field_b
                },
                reply: r.field,
            })
            &&& did[3] matches Call::Edit { actor, object, growable, reply }
            &&& actor == process
            &&& object == moved.deposit
            &&& !growable
            &&& r.deposit matches Ok(held) ==> reply == Ok::<(Seq<u8>, Seq<u8>), RuntimeError>(
                (held, ant_colony::deposited(held, moved, epoch)),
            )
            &&& did[4] matches Call::Edit { actor: by, object: own, growable: grows, reply: kept }
            &&& by == process
            &&& own == frame
            &&& grows
            &&& kept matches Ok((_, left)) ==> left.len() == 68 && AntFrame::read(left) == moved
        }),
{
    let ant = AntFrame::read(content);
    lemma_food_is_known(terrain, ant.x as int, ant.y as int, 0);
    assert(ant_colony::is_walkable(ant, terrain));
    let choice = ant_colony::choice_of(ant, class, ant_colony::senses_of(ant, terrain, field));
    let moved = ant_colony::chosen(choice->0);
    colony::law_ant_frame_reads_back(moved);
    let a = lane::read_calls(process, frame, r.frame);
    let b = lane::read_calls(process, ant.terrain, r.terrain);
    let c = lane::read_calls(process, ant.field_read(epoch), r.field);
    let laying: Result<(Seq<u8>, Seq<u8>), RuntimeError> = match r.deposit {
        Ok(held) => Ok((held, ant_colony::deposited(held, moved, epoch))),
        Err(error) => Err(error),
    };
    let d = lane::edit_calls(process, moved.deposit, false, laying);
    let e = step::store_calls(frame, process, moved.encoded(), r.stored);
    step_laws::law_a_read_asks_once(process, frame, r.frame, None);
    step_laws::law_a_read_asks_once(process, ant.terrain, r.terrain, None);
    step_laws::law_a_read_asks_once(process, ant.field_read(epoch), r.field, None);
    step_laws::law_an_edit_opens_once(process, moved.deposit, false, laying);
    step_laws::law_a_store_replaces_the_frame(frame, process, moved.encoded(), r.stored);
    step_laws::lemma_actions_join(a, b);
    step_laws::lemma_actions_join(a + b, c);
    step_laws::lemma_actions_join(a + b + c, d);
    step_laws::lemma_actions_join(a + b + c + d, e);
    step_laws::lemma_actions_join(before, a + b + c + d + e);
    assert(choice is Some) by {
        reveal(ant_colony::choice_of);
    }
    assert(ant_colony::loaded_ant(r.frame) == Some(ant));
    assert(ant_colony::ant_step_of(class, r) == ant_colony::AntStep::Done {
        ant,
        after: moved,
        next: choice->0.next,
    });
    assert(ant_colony::ant_calls(frame, process, epoch, class, r) == a + b + c + d + e);
    let did = step_laws::actions(after).skip(step_laws::actions(before).len() as int);
    assert(did =~= step_laws::actions(a + b + c + d + e));
}

/// An ant whose frame, terrain or field cannot be had faults in its class, and lays and
/// keeps nothing.
pub proof fn law_an_ant_without_its_world_faults(
    frame: Ref64,
    process: Ref64,
    epoch: u32,
    class: int,
    r: AntReplies,
    before: Seq<Call>,
    after: Seq<Call>,
    result: StepResult,
)
    requires
        ant_colony::ant_stepped(frame, process, epoch, class, r, before, after, result),
        0 <= class <= u32::MAX,
        r.frame is Err || r.frame->Ok_0.len() < 68 || AntFrame::read(r.frame->Ok_0).id
            == 0xffff_ffff || AntFrame::read(r.frame->Ok_0).width == 0 || r.terrain is Err
            || r.field is Err || !(20 <= class <= 25),
    ensures
        result == (StepResult::Fault { process, run_class: class as u32 }),
        forall|i: int|
            before.len() <= i < after.len() ==> !((#[trigger] after[i]) is Edit),
{
    let did = ant_colony::ant_step_of(class, r);
    assert(!(did is Done)) by {
        reveal(ant_colony::choice_of);
        if r.frame is Ok && r.terrain is Ok && r.field is Ok {
            assert(!(20 <= class <= 25) ==> ant_colony::choice_of(
                AntFrame::read(r.frame->Ok_0),
                class,
                ant_colony::senses_of(
                    AntFrame::read(r.frame->Ok_0),
                    r.terrain->Ok_0,
                    r.field->Ok_0,
                ),
            ) is None);
        }
    }
    let ant = AntFrame::read(r.frame->Ok_0);
    let a = lane::read_calls(process, frame, r.frame);
    let b = lane::read_calls(process, ant.terrain, r.terrain);
    let c = lane::read_calls(process, ant.field_read(epoch), r.field);
    assert forall|i: int| 0 <= i < a.len() implies !((#[trigger] a[i]) is Edit) by {}
    assert forall|i: int| 0 <= i < b.len() implies !((#[trigger] b[i]) is Edit) by {}
    assert forall|i: int| 0 <= i < c.len() implies !((#[trigger] c[i]) is Edit) by {}
    let calls = ant_colony::ant_calls(frame, process, epoch, class, r);
    assert forall|i: int| before.len() <= i < after.len() implies !((#[trigger] after[i]) is Edit) by {
        assert(after[i] == calls[i - before.len()]);
    }
}

// ---- colonies --------------------------------------------------------------

proof fn lemma_reads(
    process: Ref64,
    objects: Seq<u64>,
    replies: Seq<Result<Seq<u8>, RuntimeError>>,
    n: int,
)
    requires
        0 <= n <= objects.len(),
    ensures
        ({
            let did = step_laws::actions(ant_colony::reads_of(process, objects, replies, n));
            &&& did.len() == n
            &&& forall|i: int|
                0 <= i < n ==> #[trigger] did[i] == (Call::ObjectBytes {
                    actor: process,
                    object: Ref64::of(objects[i]),
                    reply: replies[i],
                })
        }),
    decreases n,
{
    if n > 0 {
        lemma_reads(process, objects, replies, n - 1);
        let object = Ref64::of(objects[n - 1]);
        step_laws::law_a_read_asks_once(process, object, replies[n - 1], None);
        step_laws::lemma_actions_join(
            ant_colony::reads_of(process, objects, replies, n - 1),
            lane::read_calls(process, object, replies[n - 1]),
        );
    }
}

/// A colony's step reads its frame and then each of its ants' records, in order, and writes
/// what they laid in the epoch before into its summary. It runs on as a colony, with the
/// frame that it had.
pub proof fn law_a_colony_gathers_the_epoch_before(
    frame: Ref64,
    process: Ref64,
    epoch: u32,
    r: ColonyReplies,
    before: Seq<Call>,
    after: Seq<Call>,
    result: StepResult,
    content: Seq<u8>,
    view: ColonyView,
)
    requires
        ant_colony::colony_stepped(frame, process, epoch, r, before, after, result),
        frame.raw != 0,
        r.frame == Ok::<Seq<u8>, RuntimeError>(content),
        ColonyView::read(content) == Some(view),
        view.summary.raw != 0,
        view.deposits.len() <= u32::MAX,
    ensures
        ({
            let did = step_laws::actions(after).skip(step_laws::actions(before).len() as int);
            let n = view.deposits.len() as int;
            let want = if epoch == 0 {
                0xffff_ffffu32
            } else {
                (epoch - 1) as u32
            };
            &&& result == (StepResult::Yield { next: 26 })
            &&& did.len() == n + 3
            &&& did[0] == (Call::ObjectBytes { actor: process, object: frame, reply: r.frame })
            &&& forall|i: int|
                0 <= i < n ==> #[trigger] did[i + 1] == (Call::ObjectBytes {
                    actor: process,
                    object: Ref64::of(view.deposits[i]),
                    reply: r.deposits[i],
                })
            &&& did[n + 1] matches Call::Edit { actor, object, growable, reply }
            &&& actor == process
            &&& object == view.summary
            &&& !growable
            &&& r.summary matches Ok(held) ==> reply == Ok::<(Seq<u8>, Seq<u8>), RuntimeError>(
                (
                    held,
                    ant_colony::summarized(
                        held,
                        n as nat,
                        epoch,
                        ant_colony::all_counted(r.deposits, want, n),
                    ),
                ),
            )
            &&& did[n + 2] matches Call::Edit { actor: by, object: own, growable: grows, reply: kept }
            &&& by == process
            &&& own == frame
            &&& grows
            &&& kept matches Ok((_, left)) ==> ColonyView::read(left) == Some(view)
        }),
{
    let n = view.deposits.len() as int;
    colony::law_colony_frame_reads_back(view);
    let records = ant_colony::all_counted(r.deposits, ant_colony::previous(epoch), n);
    let a = lane::read_calls(process, frame, r.frame);
    let b = ant_colony::reads_of(process, view.deposits, r.deposits, n);
    let writing: Result<(Seq<u8>, Seq<u8>), RuntimeError> = match r.summary {
        Ok(held) => Ok((held, ant_colony::summarized(held, n as nat, epoch, records))),
        Err(error) => Err(error),
    };
    let c = lane::edit_calls(process, view.summary, false, writing);
    let d = step::store_calls(frame, process, view.encoded(), r.stored);
    step_laws::law_a_read_asks_once(process, frame, r.frame, None);
    lemma_reads(process, view.deposits, r.deposits, n);
    step_laws::law_an_edit_opens_once(process, view.summary, false, writing);
    step_laws::law_a_store_replaces_the_frame(frame, process, view.encoded(), r.stored);
    step_laws::lemma_actions_join(a, b);
    step_laws::lemma_actions_join(a + b, c);
    step_laws::lemma_actions_join(a + b + c, d);
    step_laws::lemma_actions_join(before, a + b + c + d);
    assert(ant_colony::colony_calls_of(frame, process, epoch, r) == a + b + c + d);
    let did = step_laws::actions(after).skip(step_laws::actions(before).len() as int);
    assert(did =~= step_laws::actions(a + b + c + d));
    let gathered = step_laws::actions(b);
    assert forall|i: int| 0 <= i < n implies #[trigger] did[i + 1] == (Call::ObjectBytes {
        actor: process,
        object: Ref64::of(view.deposits[i]),
        reply: r.deposits[i],
    }) by {
        assert(did[i + 1] == gathered[i]);
    }
}

// ---- the world -------------------------------------------------------------

/// The world's step reads its frame, each colony's summary in order, and the field that ants
/// read in its epoch. It writes the other field: what it read, faded and with what the
/// colonies reported of the epoch before. It runs on as the world, with the frame that it
/// had.
pub proof fn law_the_world_writes_the_next_field(
    frame: Ref64,
    process: Ref64,
    epoch: u32,
    r: WorldReplies,
    before: Seq<Call>,
    after: Seq<Call>,
    result: StepResult,
    content: Seq<u8>,
    view: WorldView,
    carried: Seq<u8>,
    held: Seq<u8>,
)
    requires
        ant_colony::world_stepped(frame, process, epoch, r, before, after, result),
        frame.raw != 0,
        r.frame == Ok::<Seq<u8>, RuntimeError>(content),
        WorldView::read(content) == Some(view),
        view.width != 0,
        4 * (view.width * view.height) <= usize::MAX,
        view.summaries.len() <= u32::MAX,
        r.readable == Ok::<Seq<u8>, RuntimeError>(carried),
        r.writable == Ok::<Seq<u8>, RuntimeError>(held),
        held.len() == carried.len(),
    ensures
        ({
            let did = step_laws::actions(after).skip(step_laws::actions(before).len() as int);
            let n = view.summaries.len() as int;
            let want = if epoch == 0 {
                0xffff_ffffu32
            } else {
                (epoch - 1) as u32
            };
            let even = epoch as int % 2 == 0;
            &&& result == (StepResult::Yield { next: 27 })
            &&& did.len() == n + 4
            &&& did[0] == (Call::ObjectBytes { actor: process, object: frame, reply: r.frame })
            &&& forall|i: int|
                0 <= i < n ==> #[trigger] did[i + 1] == (Call::ObjectBytes {
                    actor: process,
                    object: Ref64::of(view.summaries[i]),
                    reply: r.summaries[i],
                })
            &&& did[n + 1] == (Call::ObjectBytes {
                actor: process,
                object: if even {
                    view.field_a
                } else {
                    view.field_b
                },
                reply: r.readable,
            })
            &&& did[n + 2] == (Call::Edit {
                actor: process,
                object: if even {
                    view.field_b
                } else {
                    view.field_a
                },
                growable: false,
                reply: Ok(
                    (
                        held,
                        ant_colony::field_after(
                            carried,
                            view.width,
                            view.height,
                            view.decay,
                            ant_colony::all_reported(r.summaries, want, n),
                        ),
                    ),
                ),
            })
            &&& did[n + 3] matches Call::Edit { actor: by, object: own, growable: grows, reply: kept }
            &&& by == process
            &&& own == frame
            &&& grows
            &&& kept matches Ok((_, left)) ==> WorldView::read(left) == Some(view)
        }),
{
    let n = view.summaries.len() as int;
    colony::law_world_frame_reads_back(view);
    let records = ant_colony::all_reported(r.summaries, ant_colony::previous(epoch), n);
    let (readable, writable) = view.buffers_at(epoch);
    let a = lane::read_calls(process, frame, r.frame);
    let b = ant_colony::reads_of(process, view.summaries, r.summaries, n);
    let c = lane::read_calls(process, readable, r.readable);
    let writing: Result<(Seq<u8>, Seq<u8>), RuntimeError> = Ok(
        (held, ant_colony::field_after(carried, view.width, view.height, view.decay, records)),
    );
    let d = lane::edit_calls(process, writable, false, writing);
    let e = step::store_calls(frame, process, view.encoded(), r.stored);
    step_laws::law_a_read_asks_once(process, frame, r.frame, None);
    lemma_reads(process, view.summaries, r.summaries, n);
    step_laws::law_a_read_asks_once(process, readable, r.readable, None);
    step_laws::law_an_edit_opens_once(process, writable, false, writing);
    step_laws::law_a_store_replaces_the_frame(frame, process, view.encoded(), r.stored);
    step_laws::lemma_actions_join(a, b);
    step_laws::lemma_actions_join(a + b, c);
    step_laws::lemma_actions_join(a + b + c, d);
    step_laws::lemma_actions_join(a + b + c + d, e);
    step_laws::lemma_actions_join(before, a + b + c + d + e);
    assert(ant_colony::world_calls_of(frame, process, epoch, r) == a + b + c + d + e);
    let did = step_laws::actions(after).skip(step_laws::actions(before).len() as int);
    assert(did =~= step_laws::actions(a + b + c + d + e));
    let gathered = step_laws::actions(b);
    assert forall|i: int| 0 <= i < n implies #[trigger] did[i + 1] == (Call::ObjectBytes {
        actor: process,
        object: Ref64::of(view.summaries[i]),
        reply: r.summaries[i],
    }) by {
        assert(did[i + 1] == gathered[i]);
    }
}

/// A world that cannot read the field, or whose other field has another length, faults and
/// leaves both fields as they are. Where the other field may not be written it goes on.
pub proof fn law_the_world_faults_without_its_fields(
    frame: Ref64,
    process: Ref64,
    epoch: u32,
    r: WorldReplies,
    before: Seq<Call>,
    after: Seq<Call>,
    result: StepResult,
    content: Seq<u8>,
    view: WorldView,
)
    requires
        ant_colony::world_stepped(frame, process, epoch, r, before, after, result),
        r.frame == Ok::<Seq<u8>, RuntimeError>(content),
        WorldView::read(content) == Some(view),
        view.width != 0,
        4 * (view.width * view.height) <= usize::MAX,
    ensures
        r.readable is Err ==> result == (StepResult::Fault { process, run_class: 27 }),
        r.readable is Ok && r.writable is Err ==> result == (StepResult::Yield { next: 27 }),
        r.readable matches Ok(carried) ==> (r.writable matches Ok(held) ==> held.len()
            != carried.len() ==> result == (StepResult::Fault { process, run_class: 27 })),
{
}

} // verus!
