//! Running a built colony, looking at it, and striking it.

use crate::compiler::frame::Frame;
use crate::executives::placement;
use crate::experiments::ant_build;
use crate::experiments::ant_build::{build_in, AntColony, AntHandle, ColonyHandle};
use crate::experiments::ant_colony;
use crate::experiments::ant_colony::{read_trail, AntFrame, ColonyKnobs, TRAIL_FOOD, TRAIL_HOME};
use crate::kernel;
use crate::kernel::{Call, ContinuationInfo, Kernel, Ref64, RuntimeError};
use crate::scheduler::{Accounting, PartialCohortPolicy, SchedulingMode};
use vstd::prelude::*;

verus! {

// ---- running ---------------------------------------------------------------

/// `k` runs `epochs` epochs, each while something is pending, and stops at the
/// limit or where nothing is.
pub open spec fn runs(k: Seq<Call>, limit: u32, epochs: u32) -> bool {
    &&& epochs <= limit
    &&& forall|i: int|
        0 <= i < epochs ==> {
            &&& (#[trigger] k[2 * i]) is Pending
            &&& k[2 * i]->Pending_reply > 0
            &&& k[2 * i + 1] == Call::RunEpoch
        }
    &&& if epochs == limit {
        k.len() == 2 * epochs
    } else {
        k.len() == 2 * epochs + 1 && k[2 * epochs as int] == (Call::Pending { reply: 0 })
    }
}

/// Runs until the limit, or until the kernel goes quiet.
#[verifier::loop_isolation(false)]
pub fn run_epochs<K: Kernel>(kernel: &mut K, limit: u32) -> (epochs: u32)
    ensures
        placement::grew(old(kernel).log(), final(kernel).log()),
        runs(placement::gained(old(kernel).log(), final(kernel).log()), limit, epochs),
{
    let ghost k0 = kernel.log();
    let mut epochs: u32 = 0;
    assert(k0.take(k0.len() as int) =~= k0);
    while epochs < limit
        invariant
            epochs <= limit,
            k0 == old(kernel).log(),
            placement::grew(k0, kernel.log()),
            placement::gained(k0, kernel.log()).len() == 2 * epochs,
            forall|i: int|
                0 <= i < epochs ==> {
                    &&& (#[trigger] placement::gained(k0, kernel.log())[2 * i]) is Pending
                    &&& placement::gained(k0, kernel.log())[2 * i]->Pending_reply > 0
                    &&& placement::gained(k0, kernel.log())[2 * i + 1] == Call::RunEpoch
                },
        decreases limit - epochs,
    {
        let ghost k = placement::gained(k0, kernel.log());
        let pending: u64 = kernel.total_pending();
        let ghost quiet = placement::gained(k0, kernel.log());
        proof {
            assert(quiet =~= k.push(Call::Pending { reply: pending }));
            assert(kernel.log().take(k0.len() as int) =~= k0);
            assert forall|i: int| 0 <= i < epochs implies {
                &&& (#[trigger] quiet[2 * i]) is Pending
                &&& quiet[2 * i]->Pending_reply > 0
                &&& quiet[2 * i + 1] == Call::RunEpoch
            } by {
                assert(k[2 * i] is Pending);
            }
        }
        if pending == 0 {
            return epochs;
        }
        kernel.run_epoch();
        proof {
            let after = placement::gained(k0, kernel.log());
            assert(after =~= quiet.push(Call::RunEpoch));
            assert(kernel.log().take(k0.len() as int) =~= k0);
            assert forall|i: int| 0 <= i < epochs + 1 implies {
                &&& (#[trigger] after[2 * i]) is Pending
                &&& after[2 * i]->Pending_reply > 0
                &&& after[2 * i + 1] == Call::RunEpoch
            } by {
                if i < epochs {
                    assert(quiet[2 * i] is Pending);
                }
            }
        }
        epochs = epochs + 1;
    }
    epochs
}

/// `whole` is what building `colony` asks and then what running it asks.
pub open spec fn built_and_ran(
    whole: Seq<Call>,
    knobs: ColonyKnobs,
    colony: AntColony,
    epochs: u32,
) -> bool {
    let split = whole.len() - 2 * epochs - if epochs == knobs.epochs {
        0int
    } else {
        1
    };
    &&& 0 <= split <= whole.len()
    &&& ant_build::is_built(whole.take(split), knobs, colony)
    &&& runs(whole.skip(split), knobs.epochs, epochs)
}

/// Builds the colony and runs it for its epochs, or until it goes quiet.
pub fn run<K: Kernel>(kernel: &mut K, knobs: &ColonyKnobs) -> (result: Result<
    (AntColony, u32),
    RuntimeError,
>)
    requires
        ant_build::has_room(*knobs),
        4 * knobs.cell_count() <= usize::MAX,
    ensures
        match result {
            Ok((colony, epochs)) => {
                &&& placement::grew(old(kernel).log(), final(kernel).log())
                &&& built_and_ran(
                    placement::gained(old(kernel).log(), final(kernel).log()),
                    *knobs,
                    colony,
                    epochs,
                )
            },
            Err(error) => ant_build::ends_refused(old(kernel).log(), final(kernel).log(), error),
        },
{
    let ghost k0 = kernel.log();
    let colony: AntColony = match build_in(kernel, knobs) {
        Ok(colony) => colony,
        Err(error) => {
            return Err(error);
        },
    };
    let ghost k1 = kernel.log();
    let epochs: u32 = run_epochs(kernel, knobs.epochs);
    proof {
        let k2 = kernel.log();
        let whole = placement::gained(k0, k2);
        let split = k1.len() - k0.len();
        assert(k2.take(k0.len() as int) =~= k2.take(k1.len() as int).take(k0.len() as int));
        assert(whole.take(split) =~= placement::gained(k0, k1)) by {
            assert(k2.take(k1.len() as int) == k1);
            assert forall|i: int| 0 <= i < split implies whole.take(split)[i]
                == placement::gained(k0, k1)[i] by {
                assert(k2.take(k1.len() as int)[k0.len() + i] == k1[k0.len() + i]);
            }
        }
        assert(whole.skip(split) =~= placement::gained(k1, k2));
        assert(built_and_ran(whole, *knobs, colony, epochs));
        assert(k2.take(k0.len() as int) =~= k1.take(k0.len() as int));
        assert(placement::grew(k0, k2));
    }
    Ok((colony, epochs))
}

// ---- observation -----------------------------------------------------------

/// One ant as an observer sees it, decoded from its frame.
#[derive(Clone, Copy, Debug, PartialEq, Eq, Structural)]
pub struct AntView {
    pub id: u32,
    pub colony: u16,
    pub x: u16,
    pub y: u16,
    pub carrying: bool,
    pub delivered: u16,
    /// The behaviour the ant is about to run: the run class it last named.
    pub run_class: u32,
    pub alive: bool,
}

/// All ants of the first `n` colonies, colony by colony.
pub open spec fn all_ants(colonies: Seq<ColonyHandle>, n: int) -> Seq<AntHandle>
    decreases n,
{
    if n <= 0 {
        Seq::empty()
    } else {
        all_ants(colonies, n - 1) + colonies[n - 1].ants@
    }
}

fn list_ants(colony: &AntColony) -> (ants: Vec<AntHandle>)
    ensures
        ants@ == all_ants(colony.colonies@, colony.colonies@.len() as int),
{
    let mut ants: Vec<AntHandle> = Vec::new();
    let mut i: usize = 0;
    while i < colony.colonies.len()
        invariant
            i <= colony.colonies.len(),
            ants@ == all_ants(colony.colonies@, i as int),
        decreases colony.colonies.len() - i,
    {
        let ghost before = ants@;
        let mut j: usize = 0;
        assert(before + colony.colonies@[i as int].ants@.take(0) =~= before);
        while j < colony.colonies[i].ants.len()
            invariant
                i < colony.colonies.len(),
                j <= colony.colonies@[i as int].ants@.len(),
                ants@ =~= before + colony.colonies@[i as int].ants@.take(j as int),
            decreases colony.colonies@[i as int].ants@.len() - j,
        {
            ants.push(colony.colonies[i].ants[j]);
            j = j + 1;
        }
        assert(colony.colonies@[i as int].ants@.take(j as int)
            =~= colony.colonies@[i as int].ants@);
        i = i + 1;
    }
    ants
}

/// What the kernel told of one ant.
pub ghost struct Glimpse {
    pub info: Option<ContinuationInfo>,
    pub frame: Result<Seq<u8>, RuntimeError>,
}

pub open spec fn glimpse_calls(ant: AntHandle, g: Glimpse) -> Seq<Call> {
    let first = Call::Continuation { continuation: ant.continuation, reply: g.info };
    match g.info {
        None => seq![first],
        Some(info) => seq![
            first,
            Call::ObjectBytes { actor: ant.process, object: info.frame, reply: g.frame },
        ],
    }
}

/// The ant that a glimpse shows: none where it is gone, its frame cannot be
/// read, or the frame does not decode.
pub open spec fn glimpsed(g: Glimpse) -> Option<AntView> {
    match (g.info, g.frame) {
        (Some(info), Ok(bytes)) => if bytes.len() >= 68 {
            let frame = AntFrame::read(bytes);
            Some(
                AntView {
                    id: frame.id,
                    colony: frame.colony,
                    x: frame.x,
                    y: frame.y,
                    carrying: frame.carrying == 1,
                    delivered: frame.delivered,
                    run_class: info.run_class,
                    alive: info.alive,
                },
            )
        } else {
            None
        },
        _ => None,
    }
}

pub open spec fn all_glimpse_calls(ants: Seq<AntHandle>, g: Seq<Glimpse>, n: int) -> Seq<Call>
    decreases n,
{
    if n <= 0 {
        Seq::empty()
    } else {
        all_glimpse_calls(ants, g, n - 1) + glimpse_calls(ants[n - 1], g[n - 1])
    }
}

pub open spec fn all_glimpsed(g: Seq<Glimpse>, n: int) -> Seq<AntView>
    decreases n,
{
    if n <= 0 {
        Seq::empty()
    } else {
        match glimpsed(g[n - 1]) {
            Some(view) => all_glimpsed(g, n - 1).push(view),
            None => all_glimpsed(g, n - 1),
        }
    }
}

/// `views` is what looking at `ants` shows, where `k` is what was asked.
pub open spec fn observed(ants: Seq<AntHandle>, g: Seq<Glimpse>, k: Seq<Call>, views: Seq<AntView>) -> bool {
    &&& g.len() == ants.len()
    &&& k == all_glimpse_calls(ants, g, ants.len() as int)
    &&& views == all_glimpsed(g, ants.len() as int)
}

proof fn lemma_glimpses_extend(ants: Seq<AntHandle>, g: Seq<Glimpse>, more: Glimpse, n: int)
    requires
        0 <= n <= g.len(),
    ensures
        all_glimpse_calls(ants, g.push(more), n) == all_glimpse_calls(ants, g, n),
        all_glimpsed(g.push(more), n) == all_glimpsed(g, n),
    decreases n,
{
    if n > 0 {
        lemma_glimpses_extend(ants, g, more, n - 1);
    }
}

/// The frame that a glimpse shows: none where the continuation is gone, its frame
/// cannot be read, or the frame does not decode.
pub open spec fn shows<F: Frame>(g: Glimpse, frame: Option<F>) -> bool {
    match (g.info, g.frame) {
        (Some(_), Ok(bytes)) => F::reads_as(bytes, frame),
        _ => frame is None,
    }
}

/// A frame of `process`, where the continuation is there and its frame can be
/// read and decodes.
pub fn read_frame<F: Frame, K: Kernel>(
    kernel: &mut K,
    process: Ref64,
    continuation: Ref64,
) -> (frame: Option<F>)
    ensures
        placement::grew(old(kernel).log(), final(kernel).log()),
        exists|g: Glimpse|
            {
                &&& placement::gained(old(kernel).log(), final(kernel).log()) == glimpse_calls(
                    AntHandle { process, continuation, deposit: process },
                    g,
                )
                &&& #[trigger] shows(g, frame)
            },
{
    let (found, bytes) = look(kernel, process, continuation);
    let ghost g = Glimpse { info: found, frame: kernel::replied_bytes(bytes) };
    let mut frame: Option<F> = None;
    if found.is_some() {
        if let Ok(bytes) = bytes {
            frame = F::from_bytes(bytes.as_slice());
        }
    }
    assert(shows(g, frame));
    frame
}

fn look<K: Kernel>(kernel: &mut K, process: Ref64, continuation: Ref64) -> (seen: (
    Option<ContinuationInfo>,
    Result<Vec<u8>, RuntimeError>,
))
    ensures
        placement::grew(old(kernel).log(), final(kernel).log()),
        placement::gained(old(kernel).log(), final(kernel).log()) == glimpse_calls(
            AntHandle { process, continuation, deposit: process },
            Glimpse { info: seen.0, frame: kernel::replied_bytes(seen.1) },
        ),
{
    let ghost k0 = kernel.log();
    let info = kernel.continuation(continuation);
    match info {
        None => {
            proof {
                assert(kernel.log().take(k0.len() as int) =~= k0);
                assert(placement::gained(k0, kernel.log()) =~= seq![
                    Call::Continuation { continuation, reply: info },
                ]);
            }
            (None, Err(RuntimeError::Unavailable))
        },
        Some(descriptor) => {
            let bytes = kernel.object_bytes(process, descriptor.frame);
            proof {
                assert(kernel.log().take(k0.len() as int) =~= k0);
                assert(placement::gained(k0, kernel.log()) =~= seq![
                    Call::Continuation { continuation, reply: info },
                    Call::ObjectBytes {
                        actor: process,
                        object: descriptor.frame,
                        reply: kernel::replied_bytes(bytes),
                    },
                ]);
            }
            (Some(descriptor), bytes)
        },
    }
}

/// Decodes every ant's frame.
pub fn observe_ants<K: Kernel>(kernel: &mut K, colony: &AntColony) -> (views: Vec<AntView>)
    ensures
        placement::grew(old(kernel).log(), final(kernel).log()),
        exists|g: Seq<Glimpse>| #[trigger]
            observed(
                all_ants(colony.colonies@, colony.colonies@.len() as int),
                g,
                placement::gained(old(kernel).log(), final(kernel).log()),
                views@,
            ),
{
    let ghost k0 = kernel.log();
    let ants: Vec<AntHandle> = list_ants(colony);
    let mut views: Vec<AntView> = Vec::new();
    let ghost mut g: Seq<Glimpse> = Seq::empty();
    let mut i: usize = 0;
    assert(k0.take(k0.len() as int) =~= k0);
    assert(placement::gained(k0, k0) =~= Seq::<Call>::empty());
    while i < ants.len()
        invariant
            i <= ants.len(),
            k0 == old(kernel).log(),
            placement::grew(k0, kernel.log()),
            g.len() == i,
            placement::gained(k0, kernel.log()) == all_glimpse_calls(ants@, g, i as int),
            views@ == all_glimpsed(g, i as int),
        decreases ants.len() - i,
    {
        let ghost before = kernel.log();
        let ant: AntHandle = ants[i];
        let (found, bytes) = look(kernel, ant.process, ant.continuation);
        let ghost more = Glimpse { info: found, frame: kernel::replied_bytes(bytes) };
        proof {
            lemma_glimpses_extend(ants@, g, more, i as int);
            assert(kernel.log().take(k0.len() as int) =~= before.take(k0.len() as int));
            assert(placement::gained(k0, kernel.log()) =~= placement::gained(k0, before)
                + placement::gained(before, kernel.log()));
            g = g.push(more);
        }
        if let Some(info) = found {
            if let Ok(bytes) = bytes {
                if let Some(frame) = AntFrame::decode(bytes.as_slice()) {
                    views.push(
                        AntView {
                            id: frame.id,
                            colony: frame.colony,
                            x: frame.x,
                            y: frame.y,
                            carrying: frame.carrying == 1,
                            delivered: frame.delivered,
                            run_class: info.run_class,
                            alive: info.alive,
                        },
                    );
                }
            }
        }
        i = i + 1;
    }
    assert(observed(ants@, g, placement::gained(k0, kernel.log()), views@));
    views
}

/// Total pheromone in one channel over the first `n` cells.
pub open spec fn trail_sum(field: Seq<u8>, cells: int, trail: int, n: int) -> int
    decreases n,
{
    if n <= 0 {
        0
    } else {
        trail_sum(field, cells, trail, n - 1) + ant_colony::trail_at(field, cells, trail, n - 1)
    }
}

fn sum_trail(field: &Vec<u8>, cells: usize, trail: usize) -> (total: u64)
    requires
        trail <= 1,
        cells <= 0xfffe_0001,
        4 * cells <= usize::MAX,
    ensures
        total == trail_sum(field@, cells as int, trail as int, cells as int),
{
    let mut total: u64 = 0;
    let mut cell: usize = 0;
    while cell < cells
        invariant
            cell <= cells <= 0xfffe_0001,
            4 * cells <= usize::MAX,
            trail <= 1,
            total == trail_sum(field@, cells as int, trail as int, cell as int),
            total <= 65535 * cell,
        decreases cells - cell,
    {
        proof {
            lemma_offset_fits(cells as int, trail as int, cell as int);
        }
        total = total + read_trail(field.as_slice(), cells, trail, cell) as u64;
        cell = cell + 1;
    }
    total
}

pub proof fn lemma_offset_fits(cells: int, trail: int, index: int)
    requires
        0 <= index < cells,
        0 <= trail <= 1,
    ensures
        0 <= ant_colony::trail_offset(cells, trail, index) < 4 * cells - 1,
{
    assert(trail * cells == 0 || trail * cells == cells) by (nonlinear_arith)
        requires
            0 <= trail <= 1,
    ;
}

/// Total pheromone in each trail channel of the buffer readable at `epoch`:
/// zero where it cannot be read. A cheap checksum of the whole world.
pub fn field_totals<K: Kernel>(kernel: &mut K, colony: &AntColony, epoch: u32) -> (totals: (
    u64,
    u64,
))
    requires
        4 * colony.knobs.cell_count() <= usize::MAX,
    ensures
        final(kernel).log().len() == old(kernel).log().len() + 1,
        ({
            let call = final(kernel).log().last();
            let cells = colony.knobs.cell_count();
            &&& final(kernel).log() == old(kernel).log().push(call)
            &&& call is ObjectBytes
            &&& call->ObjectBytes_actor == colony.world
            &&& call->ObjectBytes_object == colony.field_read(epoch)
            &&& (totals.0 as int, totals.1 as int) == match call->ObjectBytes_reply {
                Ok(field) => (
                    trail_sum(field, cells, 0, cells),
                    trail_sum(field, cells, 1, cells),
                ),
                Err(_) => (0int, 0int),
            }
        }),
{
    let cells: usize = colony.knobs.cells();
    proof {
        ant_colony::lemma_grid_size(colony.knobs.width as int, colony.knobs.height as int);
    }
    let field: Ref64 = colony.readable_field(epoch);
    match kernel.object_bytes(colony.world, field) {
        Ok(bytes) => (sum_trail(&bytes, cells, TRAIL_FOOD), sum_trail(&bytes, cells, TRAIL_HOME)),
        Err(_) => (0, 0),
    }
}

/// Loads delivered by the first `n` ants.
pub open spec fn delivered_by(views: Seq<AntView>, n: int) -> int
    decreases n,
{
    if n <= 0 {
        0
    } else {
        delivered_by(views, n - 1) + views[n - 1].delivered
    }
}

pub fn sum_delivered(views: &Vec<AntView>) -> (total: u64)
    requires
        views@.len() <= 0xffff_ffff_ffff,
    ensures
        total == delivered_by(views@, views@.len() as int),
{
    let mut total: u64 = 0;
    let mut i: usize = 0;
    while i < views.len()
        invariant
            i <= views.len() <= 0xffff_ffff_ffff,
            total == delivered_by(views@, i as int),
            total <= 65535 * i,
        decreases views.len() - i,
    {
        total = total + views[i].delivered as u64;
        i = i + 1;
    }
    total
}

proof fn lemma_fewer_views(g: Seq<Glimpse>, n: int)
    requires
        0 <= n,
    ensures
        all_glimpsed(g, n).len() <= n,
    decreases n,
{
    if n > 0 {
        lemma_fewer_views(g, n - 1);
    }
}

/// Loads delivered to the nests over the whole run.
pub fn total_delivered<K: Kernel>(kernel: &mut K, colony: &AntColony) -> (total: u64)
    requires
        all_ants(colony.colonies@, colony.colonies@.len() as int).len() <= 0xffff_ffff_ffff,
    ensures
        placement::grew(old(kernel).log(), final(kernel).log()),
        exists|g: Seq<Glimpse>, views: Seq<AntView>|
            {
                &&& #[trigger] observed(
                    all_ants(colony.colonies@, colony.colonies@.len() as int),
                    g,
                    placement::gained(old(kernel).log(), final(kernel).log()),
                    views,
                )
                &&& total == delivered_by(views, views.len() as int)
            },
{
    let views: Vec<AntView> = observe_ants(kernel, colony);
    proof {
        let ants = all_ants(colony.colonies@, colony.colonies@.len() as int);
        let k = placement::gained(old(kernel).log(), kernel.log());
        let g = choose|g: Seq<Glimpse>| #[trigger] observed(ants, g, k, views@);
        lemma_fewer_views(g, ants.len() as int);
    }
    sum_delivered(&views)
}

/// What one ant adds to the digest of its population.
pub open spec fn digest_word(ant: AntView) -> u64 {
    let word = ((ant.id as u64) << 40) | ((ant.x as u64) << 24) | ((ant.y as u64) << 8) | (
    ant.run_class as u64 & 0xFF);
    let marked = word ^ ((ant.delivered as u64) << 16) ^ (if ant.carrying {
        1u64 << 63
    } else {
        0u64
    });
    rotated(marked, (ant.id % 61) as u64)
}

/// `word` turned left by `by` bits.
pub open spec fn rotated(word: u64, by: u64) -> u64 {
    if by == 0 {
        word
    } else {
        (word << by) | (word >> ((64 - by) as u64))
    }
}

/// The digest of the first `n` ants.
pub open spec fn digest_of(ants: Seq<AntView>, n: int) -> u64
    decreases n,
{
    if n <= 0 {
        0
    } else {
        digest_of(ants, n - 1).wrapping_add(digest_word(ants[n - 1]))
    }
}

/// Digests a population so that two runs can be compared.
pub fn population_digest(ants: &Vec<AntView>) -> (digest: u64)
    ensures
        digest == digest_of(ants@, ants@.len() as int),
{
    let mut digest: u64 = 0;
    let mut i: usize = 0;
    while i < ants.len()
        invariant
            i <= ants.len(),
            digest == digest_of(ants@, i as int),
        decreases ants.len() - i,
    {
        let ant: AntView = ants[i];
        let word: u64 = ((ant.id as u64) << 40) | ((ant.x as u64) << 24) | ((ant.y as u64) << 8) | (
        ant.run_class as u64 & 0xFF);
        let load: u64 = if ant.carrying {
            1u64 << 63
        } else {
            0u64
        };
        let marked: u64 = word ^ ((ant.delivered as u64) << 16) ^ load;
        let by: u64 = (ant.id % 61) as u64;
        let turned: u64 = if by == 0 {
            marked
        } else {
            (marked << by) | (marked >> (64 - by))
        };
        digest = digest.wrapping_add(turned);
        i = i + 1;
    }
    digest
}

/// The digest does not depend on the order in which the ants are visited.
pub proof fn law_digest_ignores_order(a: Seq<AntView>, b: Seq<AntView>)
    requires
        a.to_multiset() == b.to_multiset(),
    ensures
        digest_of(a, a.len() as int) == digest_of(b, b.len() as int),
    decreases a.len(),
{
    a.to_multiset_ensures();
    b.to_multiset_ensures();
    if a.len() == 0 {
        assert(b.len() == 0);
    } else {
        let last = a.last();
        assert(a.to_multiset().count(last) > 0) by {
            assert(a.contains(last));
        }
        assert(b.contains(last));
        let at = choose|i: int| 0 <= i < b.len() && b[i] == last;
        let rest = b.remove(at);
        assert(a.remove(a.len() - 1) =~= a.drop_last());
        law_digest_ignores_order(a.drop_last(), rest);
        lemma_digest_drop(a, a.len() as int - 1);
        lemma_digest_remove(b, at, b.len() as int);
    }
}

proof fn lemma_digest_drop(a: Seq<AntView>, n: int)
    requires
        0 <= n < a.len(),
    ensures
        digest_of(a.drop_last(), n) == digest_of(a, n),
    decreases n,
{
    if n > 0 {
        lemma_digest_drop(a, n - 1);
    }
}

proof fn lemma_digest_remove(b: Seq<AntView>, at: int, n: int)
    requires
        0 <= at < n <= b.len(),
    ensures
        digest_of(b, n) == digest_of(b.remove(at), n - 1).wrapping_add(digest_word(b[at])),
    decreases n,
{
    if n - 1 == at {
        lemma_digest_same(b, b.remove(at), at);
    } else {
        lemma_digest_remove(b, at, n - 1);
        assert(b.remove(at)[n - 2] == b[n - 1]);
    }
}

proof fn lemma_digest_same(a: Seq<AntView>, b: Seq<AntView>, n: int)
    requires
        0 <= n <= a.len(),
        n <= b.len(),
        forall|i: int| 0 <= i < n ==> a[i] == b[i],
    ensures
        digest_of(a, n) == digest_of(b, n),
    decreases n,
{
    if n > 0 {
        lemma_digest_same(a, b, n - 1);
    }
}

// ---- predation -------------------------------------------------------------

/// A predator taking a bite out of one colony.
#[derive(Clone, Copy, Debug, PartialEq, Eq, Structural)]
pub struct PredatorStrike {
    /// Which colony is hit. Every other colony is the control.
    pub colony: u16,
    /// How many of its ants are taken.
    pub victims: u16,
}

/// What the kernel answered while one victim was struck.
pub ghost struct Bite {
    pub info: Option<ContinuationInfo>,
    pub edit: Result<Seq<u8>, RuntimeError>,
}

/// A victim's frame is opened and every byte of it zeroed, so that the ant
/// faults at its next resume.
pub open spec fn bite_calls(ant: AntHandle, b: Bite) -> Seq<Call> {
    let first = Call::Continuation { continuation: ant.continuation, reply: b.info };
    match b.info {
        None => seq![first],
        Some(info) => seq![
            first,
            Call::Edit {
                actor: kernel::system_principal(),
                object: info.frame,
                growable: false,
                reply: match b.edit {
                    Ok(held) => Ok((held, ant_build::zeros(held.len() as int))),
                    Err(error) => Err(error),
                },
            },
        ],
    }
}

pub open spec fn all_bite_calls(ants: Seq<AntHandle>, b: Seq<Bite>, n: int) -> Seq<Call>
    decreases n,
{
    if n <= 0 {
        Seq::empty()
    } else {
        all_bite_calls(ants, b, n - 1) + bite_calls(ants[n - 1], b[n - 1])
    }
}

/// The ants whose frames were zeroed.
pub open spec fn all_struck(ants: Seq<AntHandle>, b: Seq<Bite>, n: int) -> Seq<Ref64>
    decreases n,
{
    if n <= 0 {
        Seq::empty()
    } else if b[n - 1].info is Some && b[n - 1].edit is Ok {
        all_struck(ants, b, n - 1).push(ants[n - 1].process)
    } else {
        all_struck(ants, b, n - 1)
    }
}

/// The ants that a strike is aimed at: the first of the colony's.
pub open spec fn victims_of(colony: AntColony, strike: PredatorStrike) -> Seq<AntHandle> {
    if strike.colony >= colony.colonies@.len() {
        Seq::empty()
    } else {
        let ants = colony.colonies@[strike.colony as int].ants@;
        if strike.victims < ants.len() {
            ants.take(strike.victims as int)
        } else {
            ants
        }
    }
}

pub open spec fn bitten(ants: Seq<AntHandle>, b: Seq<Bite>, k: Seq<Call>, struck: Seq<Ref64>) -> bool {
    &&& b.len() == ants.len()
    &&& k == all_bite_calls(ants, b, ants.len() as int)
    &&& struck == all_struck(ants, b, ants.len() as int)
}

proof fn lemma_bites_extend(ants: Seq<AntHandle>, b: Seq<Bite>, more: Bite, n: int)
    requires
        0 <= n <= b.len(),
    ensures
        all_bite_calls(ants, b.push(more), n) == all_bite_calls(ants, b, n),
        all_struck(ants, b.push(more), n) == all_struck(ants, b, n),
    decreases n,
{
    if n > 0 {
        lemma_bites_extend(ants, b, more, n - 1);
    }
}

fn zero_out(buffer: &mut Vec<u8>)
    ensures
        final(buffer)@ == ant_build::zeros(old(buffer)@.len() as int),
{
    let ghost held = buffer@;
    let mut i: usize = 0;
    while i < buffer.len()
        invariant
            i <= buffer.len(),
            buffer@.len() == held.len(),
            forall|j: int| 0 <= j < i ==> buffer@[j] == 0,
        decreases buffer.len() - i,
    {
        buffer.set(i, 0);
        i = i + 1;
    }
    assert(buffer@ =~= ant_build::zeros(held.len() as int));
}

fn bite<K: Kernel>(kernel: &mut K, ant: AntHandle) -> (struck: bool)
    ensures
        placement::grew(old(kernel).log(), final(kernel).log()),
        exists|b: Bite|
            {
                &&& placement::gained(old(kernel).log(), final(kernel).log())
                    == #[trigger] bite_calls(ant, b)
                &&& struck == (b.info is Some && b.edit is Ok)
            },
{
    let ghost k0 = kernel.log();
    let info = kernel.continuation(ant.continuation);
    let ghost first = Call::Continuation { continuation: ant.continuation, reply: info };
    match info {
        None => {
            proof {
                let b = Bite { info, edit: Err(RuntimeError::Unavailable) };
                assert(kernel.log().take(k0.len() as int) =~= k0);
                assert(placement::gained(k0, kernel.log()) =~= bite_calls(ant, b));
            }
            false
        },
        Some(descriptor) => {
            let mut struck: bool = false;
            let ghost mut answer: Result<Seq<u8>, RuntimeError> = Err(RuntimeError::Unavailable);
            match kernel.edit_object(kernel::system(), descriptor.frame, false) {
                Ok(buffer) => {
                    proof {
                        answer = Ok(buffer@);
                    }
                    zero_out(buffer);
                    struck = true;
                },
                Err(error) => {
                    proof {
                        answer = Err(error);
                    }
                },
            }
            proof {
                let b = Bite { info, edit: answer };
                assert(kernel.log().take(k0.len() as int) =~= k0);
                assert(placement::gained(k0, kernel.log()) =~= bite_calls(ant, b));
            }
            struck
        },
    }
}

/// Takes ants out of one colony by zeroing their frames: each victim faults at
/// its next resume, through the ordinary step path. Hands back the processes
/// that were struck.
pub fn inject_predator<K: Kernel>(kernel: &mut K, colony: &AntColony, strike: PredatorStrike) -> (struck:
    Vec<Ref64>)
    ensures
        placement::grew(old(kernel).log(), final(kernel).log()),
        exists|b: Seq<Bite>| #[trigger]
            bitten(
                victims_of(*colony, strike),
                b,
                placement::gained(old(kernel).log(), final(kernel).log()),
                struck@,
            ),
{
    let ghost k0 = kernel.log();
    let ghost ants = victims_of(*colony, strike);
    let mut struck: Vec<Ref64> = Vec::new();
    let ghost mut b: Seq<Bite> = Seq::empty();
    assert(k0.take(k0.len() as int) =~= k0);
    assert(placement::gained(k0, k0) =~= Seq::<Call>::empty());
    if strike.colony as usize >= colony.colonies.len() {
        assert(bitten(ants, b, placement::gained(k0, k0), struck@));
        return struck;
    }
    let at: usize = strike.colony as usize;
    let all: usize = colony.colonies[at].ants.len();
    let count: usize = if (strike.victims as usize) < all {
        strike.victims as usize
    } else {
        all
    };
    let mut i: usize = 0;
    while i < count
        invariant
            i <= count == ants.len(),
            at == strike.colony,
            at < colony.colonies@.len(),
            count <= colony.colonies@[at as int].ants@.len(),
            ants == victims_of(*colony, strike),
            k0 == old(kernel).log(),
            placement::grew(k0, kernel.log()),
            b.len() == i,
            placement::gained(k0, kernel.log()) == all_bite_calls(ants, b, i as int),
            struck@ == all_struck(ants, b, i as int),
        decreases count - i,
    {
        let ghost before = kernel.log();
        let ant: AntHandle = colony.colonies[at].ants[i];
        assert(ant == ants[i as int]);
        let hit: bool = bite(kernel, ant);
        proof {
            let gained = placement::gained(before, kernel.log());
            let more = choose|b: Bite|
                gained == #[trigger] bite_calls(ant, b) && hit == (b.info is Some && b.edit is Ok);
            lemma_bites_extend(ants, b, more, i as int);
            assert(kernel.log().take(k0.len() as int) =~= before.take(k0.len() as int));
            assert(placement::gained(k0, kernel.log()) =~= placement::gained(k0, before) + gained);
            b = b.push(more);
        }
        if hit {
            struck.push(ant.process);
        }
        i = i + 1;
    }
    assert(bitten(ants, b, placement::gained(k0, kernel.log()), struck@));
    struck
}

/// A frame of zero bytes is an ant in a world without cells, which no ant can
/// be in: stepping it faults.
pub proof fn law_struck_ant_has_no_world(n: int)
    requires
        n >= 68,
    ensures
        AntFrame::read(ant_build::zeros(n)).width == 0,
{
    let s = ant_build::zeros(n);
    assert(s.subrange(14, 16) =~= seq![0u8, 0u8]);
    reveal_with_fuel(crate::bytes::le_value, 3);
    assert(seq![0u8, 0u8].skip(1) =~= seq![0u8]);
    assert(seq![0u8].skip(1) =~= Seq::<u8>::empty());
}

/// What the machine did about a strike.
#[derive(Debug)]
pub struct PredatorOutcome {
    pub struck: Vec<Ref64>,
    /// Ants of the struck colony still running.
    pub survivors: usize,
    /// Ants of every other colony still running.
    pub bystanders: usize,
    /// Terminal notices queued at the struck colony.
    pub notices: u64,
    pub failures: u64,
    pub colony_alive: bool,
    pub world_alive: bool,
}

/// Living ants among the first `n` that are of the colony, or of the others.
pub open spec fn living(views: Seq<AntView>, colony: u16, own: bool, n: int) -> int
    decreases n,
{
    if n <= 0 {
        0
    } else {
        living(views, colony, own, n - 1) + if views[n - 1].alive && (views[n - 1].colony == colony)
            == own {
            1int
        } else {
            0
        }
    }
}

pub fn count_living(views: &Vec<AntView>, colony: u16, own: bool) -> (count: usize)
    ensures
        count == living(views@, colony, own, views@.len() as int),
{
    let mut count: usize = 0;
    let mut i: usize = 0;
    while i < views.len()
        invariant
            i <= views.len(),
            count <= i,
            count == living(views@, colony, own, i as int),
        decreases views.len() - i,
    {
        if views[i].alive && (views[i].colony == colony) == own {
            count = count + 1;
        }
        i = i + 1;
    }
    count
}

/// What is asked after the ants were observed: the struck colony's notices and
/// life, where there is such a colony, then the world's life and the failures.
pub open spec fn aftermath_calls(
    colony: AntColony,
    strike: PredatorStrike,
    outcome: PredatorOutcome,
) -> Seq<Call> {
    let rest = seq![
        Call::IsAlive { process: colony.world, reply: outcome.world_alive },
        Call::Failures { reply: outcome.failures },
    ];
    if strike.colony < colony.colonies@.len() {
        let process = colony.colonies@[strike.colony as int].process;
        seq![
            Call::Notices { process, reply: outcome.notices },
            Call::IsAlive { process, reply: outcome.colony_alive },
        ] + rest
    } else {
        rest
    }
}

pub open spec fn outcome_is(
    colony: AntColony,
    strike: PredatorStrike,
    struck: Seq<Ref64>,
    k: Seq<Call>,
    split: int,
    g: Seq<Glimpse>,
    views: Seq<AntView>,
    outcome: PredatorOutcome,
) -> bool {
    let n = views.len() as int;
    &&& 0 <= split <= k.len()
    &&& observed(
        all_ants(colony.colonies@, colony.colonies@.len() as int),
        g,
        k.take(split),
        views,
    )
    &&& k.skip(split) == aftermath_calls(colony, strike, outcome)
    &&& outcome.struck@ == struck
    &&& outcome.survivors == living(views, strike.colony, true, n)
    &&& outcome.bystanders == living(views, strike.colony, false, n)
    &&& strike.colony >= colony.colonies@.len() ==> outcome.notices == 0 && !outcome.colony_alive
}

/// Observes the aftermath of a strike.
pub fn predator_outcome<K: Kernel>(
    kernel: &mut K,
    colony: &AntColony,
    strike: PredatorStrike,
    struck: Vec<Ref64>,
) -> (outcome: PredatorOutcome)
    ensures
        placement::grew(old(kernel).log(), final(kernel).log()),
        exists|split: int, g: Seq<Glimpse>, views: Seq<AntView>| #[trigger]
            outcome_is(
                *colony,
                strike,
                struck@,
                placement::gained(old(kernel).log(), final(kernel).log()),
                split,
                g,
                views,
                outcome,
            ),
{
    let ghost k0 = kernel.log();
    let views: Vec<AntView> = observe_ants(kernel, colony);
    let ghost k1 = kernel.log();
    let survivors: usize = count_living(&views, strike.colony, true);
    let bystanders: usize = count_living(&views, strike.colony, false);
    let mut notices: u64 = 0;
    let mut colony_alive: bool = false;
    if (strike.colony as usize) < colony.colonies.len() {
        let process: Ref64 = colony.colonies[strike.colony as usize].process;
        notices = kernel.pending_supervision_notices(process);
        colony_alive = kernel.is_alive(process);
    }
    let world_alive: bool = kernel.is_alive(colony.world);
    let failures: u64 = kernel.failures();
    let outcome = PredatorOutcome {
        struck,
        survivors,
        bystanders,
        notices,
        failures,
        colony_alive,
        world_alive,
    };
    proof {
        let k2 = kernel.log();
        let k = placement::gained(k0, k2);
        let split = k1.len() - k0.len();
        let ants = all_ants(colony.colonies@, colony.colonies@.len() as int);
        let g = choose|g: Seq<Glimpse>| #[trigger]
            observed(ants, g, placement::gained(k0, k1), views@);
        assert(k2.take(k1.len() as int) =~= k1);
        assert(k2.take(k0.len() as int) =~= k1.take(k0.len() as int));
        assert(k.take(split) =~= placement::gained(k0, k1)) by {
            assert forall|i: int| 0 <= i < split implies k.take(split)[i] == placement::gained(
                k0,
                k1,
            )[i] by {
                assert(k2.take(k1.len() as int)[k0.len() + i] == k1[k0.len() + i]);
            }
        }
        assert(k.skip(split) =~= aftermath_calls(*colony, strike, outcome));
        assert(outcome_is(*colony, strike, struck@, k, split, g, views@, outcome));
    }
    outcome
}

// ---- scheduling comparison -------------------------------------------------

/// One configured run of the colony.
#[derive(Clone, Copy, Debug)]
pub struct ColonyRun {
    pub mode: SchedulingMode,
    pub cohort_width: u16,
    pub epochs: u32,
    pub accounting: Accounting,
    /// Everything below is the world, not the schedule.
    pub delivered: u64,
    pub food_trail: u64,
    pub home_trail: u64,
    /// Order-independent digest of every ant's final position and behaviour.
    pub population: u64,
}

/// The steps of a compared run: where the log stood behind the run itself,
/// behind the reading of the field, and behind the looks at the ants.
pub ghost struct ModeRun {
    pub ran: Seq<Call>,
    pub read: Seq<Call>,
    pub seen: Seq<Call>,
    pub colony: AntColony,
    pub glimpses: Seq<Glimpse>,
    pub views: Seq<AntView>,
}

/// Both trail totals, off the call that read the field.
pub open spec fn totals_read(colony: AntColony, epoch: u32, call: Call, food: u64, home: u64) -> bool {
    let cells = colony.knobs.cell_count();
    &&& call is ObjectBytes
    &&& call->ObjectBytes_actor == colony.world
    &&& call->ObjectBytes_object == colony.field_read(epoch)
    &&& (food as int, home as int) == match call->ObjectBytes_reply {
        Ok(field) => (trail_sum(field, cells, 0, cells), trail_sum(field, cells, 1, cells)),
        Err(_) => (0int, 0int),
    }
}

/// The colony was built and run, and then the field, the ants and the
/// accounting were read.
pub open spec fn mode_ran(
    knobs: ColonyKnobs,
    m: ModeRun,
    before: Seq<Call>,
    after: Seq<Call>,
    run: ColonyRun,
) -> bool {
    &&& placement::grew(before, m.ran)
    &&& built_and_ran(placement::gained(before, m.ran), knobs, m.colony, run.epochs)
    &&& m.read == m.ran.push(m.read.last())
    &&& totals_read(m.colony, run.epochs, m.read.last(), run.food_trail, run.home_trail)
    &&& placement::grew(m.read, m.seen)
    &&& observed(
        all_ants(m.colony.colonies@, m.colony.colonies@.len() as int),
        m.glimpses,
        placement::gained(m.read, m.seen),
        m.views,
    )
    &&& after == m.seen.push(Call::Accounting { reply: run.accounting })
    &&& run.delivered == delivered_by(m.views, m.views.len() as int)
    &&& run.population == digest_of(m.views, m.views.len() as int)
}

proof fn lemma_ants_of(k: Seq<Call>, knobs: ColonyKnobs, colony: AntColony, n: int)
    requires
        ant_build::is_built(k, knobs, colony),
        0 <= n <= knobs.colonies,
    ensures
        all_ants(colony.colonies@, n).len() == n * knobs.ants_per_colony,
    decreases n,
{
    let per = knobs.ants_per_colony as int;
    if n > 0 {
        lemma_ants_of(k, knobs, colony, n - 1);
        assert(colony.colonies@[n - 1]@.ants.len() == per);
        assert((n - 1) * per + per == n * per) by (nonlinear_arith);
    } else {
        assert(0 * per == 0);
    }
}

/// The colony ran in a kernel that was configured first, and for this schedule,
/// or the kernel refused to build it.
pub open spec fn schedule_ran(
    knobs: ColonyKnobs,
    mode: SchedulingMode,
    cohort_width: u16,
    before: Seq<Call>,
    after: Seq<Call>,
    result: Result<ColonyRun, RuntimeError>,
) -> bool {
    let start = kernel::configured(before, mode, cohort_width, PartialCohortPolicy::RunPartial);
    match result {
        Ok(run) => {
            &&& run.mode == mode
            &&& run.cohort_width == cohort_width
            &&& exists|m: ModeRun| #[trigger] mode_ran(knobs, m, start, after, run)
        },
        Err(error) => ant_build::ends_refused(start, after, error),
    }
}

/// Configures `kernel`, runs the colony in it, and reads the world that it left
/// behind.
pub fn run_mode<K: Kernel>(
    kernel: &mut K,
    knobs: &ColonyKnobs,
    mode: SchedulingMode,
    cohort_width: u16,
) -> (result: Result<ColonyRun, RuntimeError>)
    requires
        ant_build::has_room(*knobs),
        4 * knobs.cell_count() <= usize::MAX,
    ensures
        schedule_ran(
            *knobs,
            mode,
            cohort_width,
            old(kernel).log(),
            final(kernel).log(),
            result,
        ),
{
    kernel.configure(mode, cohort_width, PartialCohortPolicy::RunPartial);
    let ghost before = kernel::configured(
        old(kernel).log(),
        mode,
        cohort_width,
        PartialCohortPolicy::RunPartial,
    );
    assert(kernel.log() == before);
    let (colony, epochs) = match run(kernel, knobs) {
        Ok(ran) => ran,
        Err(error) => {
            return Err(error);
        },
    };
    let ghost ran = kernel.log();
    let ghost whole = placement::gained(before, ran);
    proof {
        assert(built_and_ran(whole, *knobs, colony, epochs));
        assert(colony.knobs == *knobs);
    }
    let (food_trail, home_trail) = field_totals(kernel, &colony, epochs);
    let ghost read = kernel.log();
    let ants: Vec<AntView> = observe_ants(kernel, &colony);
    let ghost seen = kernel.log();
    let ghost glimpses = choose|g: Seq<Glimpse>| #[trigger]
        observed(
            all_ants(colony.colonies@, colony.colonies@.len() as int),
            g,
            placement::gained(read, seen),
            ants@,
        );
    proof {
        let colonies = knobs.colonies as int;
        let per = knobs.ants_per_colony as int;
        lemma_built_ants(whole, *knobs, colony, epochs);
        lemma_fewer_views(glimpses, colonies * per);
        assert(colonies * per <= 0xffff * 0xffff) by (nonlinear_arith)
            requires
                0 <= colonies <= 0xffff,
                0 <= per <= 0xffff,
        ;
    }
    let delivered: u64 = sum_delivered(&ants);
    let population: u64 = population_digest(&ants);
    let accounting: Accounting = kernel.accounting();
    let run = ColonyRun {
        mode,
        cohort_width,
        epochs,
        accounting,
        delivered,
        food_trail,
        home_trail,
        population,
    };
    let ghost m = ModeRun { ran, read, seen, colony, glimpses, views: ants@ };
    assert(mode_ran(*knobs, m, before, kernel.log(), run));
    let result: Result<ColonyRun, RuntimeError> = Ok(run);
    assert(mode_ran(*knobs, m, before, final(kernel).log(), result->Ok_0));
    assert(schedule_ran(
        *knobs,
        mode,
        cohort_width,
        old(kernel).log(),
        final(kernel).log(),
        result,
    ));
    result
}

proof fn lemma_built_ants(whole: Seq<Call>, knobs: ColonyKnobs, colony: AntColony, epochs: u32)
    requires
        built_and_ran(whole, knobs, colony, epochs),
    ensures
        all_ants(colony.colonies@, colony.colonies@.len() as int).len() == knobs.colonies
            * knobs.ants_per_colony,
        knobs.colonies * knobs.ants_per_colony >= 0,
{
    let rest = whole.len() - 2 * epochs;
    let split = if epochs == knobs.epochs {
        rest
    } else {
        rest - 1
    };
    lemma_ants_of(whole.take(split), knobs, colony, knobs.colonies as int);
    assert(knobs.colonies * knobs.ants_per_colony >= 0) by (nonlinear_arith);
}

impl ColonyRun {
    pub fn dispatches(&self) -> (n: u64)
        ensures
            n == self.accounting.cohorts,
    {
        self.accounting.cohorts
    }
}

/// The same colony scheduled two ways.
#[derive(Clone, Copy, Debug)]
pub struct ColonyComparison {
    pub fifo: ColonyRun,
    pub cohorted: ColonyRun,
}

impl ColonyComparison {
    /// Both runs simulated the same colony, step for step and ant for ant: only
    /// the binning is allowed to differ.
    pub open spec fn same_world(self) -> bool {
        let (a, b) = (self.fifo, self.cohorted);
        &&& a.accounting.steps == b.accounting.steps
        &&& a.accounting.useful_lane_slots == b.accounting.useful_lane_slots
        &&& a.epochs == b.epochs
        &&& a.delivered == b.delivered
        &&& a.food_trail == b.food_trail
        &&& a.home_trail == b.home_trail
        &&& a.population == b.population
    }

    pub fn simulated_identical_world(&self) -> (same: bool)
        ensures
            same == self.same_world(),
    {
        self.fifo.accounting.steps == self.cohorted.accounting.steps
            && self.fifo.accounting.useful_lane_slots == self.cohorted.accounting.useful_lane_slots
            && self.fifo.epochs == self.cohorted.epochs && self.fifo.delivered
            == self.cohorted.delivered && self.fifo.food_trail == self.cohorted.food_trail
            && self.fifo.home_trail == self.cohorted.home_trail && self.fifo.population
            == self.cohorted.population
    }
}

/// Runs the colony in two kernels that are configured alike but for the binning:
/// the one bins in arrival order and the other by run class. The first refusal
/// ends the comparison, and a refusal in the first kernel leaves the other alone.
pub fn compare<F: Kernel, C: Kernel>(
    fifo: &mut F,
    cohorted: &mut C,
    knobs: &ColonyKnobs,
    cohort_width: u16,
) -> (result: Result<ColonyComparison, RuntimeError>)
    requires
        ant_build::has_room(*knobs),
        4 * knobs.cell_count() <= usize::MAX,
    ensures
        ({
            let first = |reply: Result<ColonyRun, RuntimeError>|
                schedule_ran(
                    *knobs,
                    SchedulingMode::PersistentFifo,
                    cohort_width,
                    old(fifo).log(),
                    final(fifo).log(),
                    reply,
                );
            let second = |reply: Result<ColonyRun, RuntimeError>|
                schedule_ran(
                    *knobs,
                    SchedulingMode::RunClassBins,
                    cohort_width,
                    old(cohorted).log(),
                    final(cohorted).log(),
                    reply,
                );
            match result {
                Ok(comparison) => first(Ok(comparison.fifo)) && second(Ok(comparison.cohorted)),
                Err(error) => {
                    ||| first(Err(error)) && final(cohorted).log() == old(cohorted).log()
                    ||| second(Err(error)) && exists|run: ColonyRun| #[trigger]
                        schedule_ran(
                            *knobs,
                            SchedulingMode::PersistentFifo,
                            cohort_width,
                            old(fifo).log(),
                            final(fifo).log(),
                            Ok(run),
                        )
                },
            }
        }),
{
    let first: ColonyRun = match run_mode(
        fifo,
        knobs,
        SchedulingMode::PersistentFifo,
        cohort_width,
    ) {
        Ok(run) => run,
        Err(error) => {
            return Err(error);
        },
    };
    match run_mode(cohorted, knobs, SchedulingMode::RunClassBins, cohort_width) {
        Ok(second) => Ok(ColonyComparison { fifo: first, cohorted: second }),
        Err(error) => Err(error),
    }
}

proof fn lemma_delivered_remove(b: Seq<AntView>, at: int, n: int)
    requires
        0 <= at < n <= b.len(),
    ensures
        delivered_by(b, n) == delivered_by(b.remove(at), n - 1) + b[at].delivered,
    decreases n,
{
    if n - 1 == at {
        lemma_delivered_same(b, b.remove(at), at);
    } else {
        lemma_delivered_remove(b, at, n - 1);
        assert(b.remove(at)[n - 2] == b[n - 1]);
    }
}

proof fn lemma_delivered_same(a: Seq<AntView>, b: Seq<AntView>, n: int)
    requires
        0 <= n <= a.len(),
        n <= b.len(),
        forall|i: int| 0 <= i < n ==> a[i] == b[i],
    ensures
        delivered_by(a, n) == delivered_by(b, n),
    decreases n,
{
    if n > 0 {
        lemma_delivered_same(a, b, n - 1);
    }
}

/// Deliveries do not depend on the order in which the ants are visited.
pub proof fn law_deliveries_ignore_order(a: Seq<AntView>, b: Seq<AntView>)
    requires
        a.to_multiset() == b.to_multiset(),
    ensures
        delivered_by(a, a.len() as int) == delivered_by(b, b.len() as int),
    decreases a.len(),
{
    a.to_multiset_ensures();
    b.to_multiset_ensures();
    if a.len() == 0 {
        assert(b.len() == 0);
    } else {
        let last = a.last();
        assert(a.to_multiset().count(last) > 0) by {
            assert(a.contains(last));
        }
        assert(b.contains(last));
        let at = choose|i: int| 0 <= i < b.len() && b[i] == last;
        let rest = b.remove(at);
        assert(a.remove(a.len() - 1) =~= a.drop_last());
        law_deliveries_ignore_order(a.drop_last(), rest);
        lemma_delivered_same(a, a.drop_last(), a.len() - 1);
        lemma_delivered_remove(b, at, b.len() as int);
    }
}

/// Two schedules whose kernels took the same steps, and left the same field and
/// the same ants, in whatever order they are looked at, simulated an identical
/// world: neither the mode nor the cohort width enters into it.
pub proof fn law_one_world_left_is_one_world_simulated(
    knobs: ColonyKnobs,
    a: ModeRun,
    b: ModeRun,
    befores: (Seq<Call>, Seq<Call>),
    afters: (Seq<Call>, Seq<Call>),
    comparison: ColonyComparison,
)
    requires
        mode_ran(knobs, a, befores.0, afters.0, comparison.fifo),
        mode_ran(knobs, b, befores.1, afters.1, comparison.cohorted),
        comparison.fifo.epochs == comparison.cohorted.epochs,
        comparison.fifo.accounting.steps == comparison.cohorted.accounting.steps,
        comparison.fifo.accounting.useful_lane_slots
            == comparison.cohorted.accounting.useful_lane_slots,
        a.read.last()->ObjectBytes_reply == b.read.last()->ObjectBytes_reply,
        a.views.to_multiset() == b.views.to_multiset(),
    ensures
        comparison.same_world(),
{
    law_digest_ignores_order(a.views, b.views);
    law_deliveries_ignore_order(a.views, b.views);
}

} // verus!
