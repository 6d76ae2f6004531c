//! What an epoch makes of the field, and how an ant's record gets there.

use crate::bytes;
use crate::compiler::frame;
use crate::executives::ant_colony;
use crate::experiments::ant_colony as colony;
use crate::experiments::ant_colony::{AntFrame, Deposit};
use crate::experiments::ant_observe;
use crate::kernel::RuntimeError;
use vstd::prelude::*;

verus! {

/// A report: column, row, and what was laid of the trail to food and of that home.
pub type Report = (u16, u16, u16, u16);

/// The food laid on a cell by the first `n` reports together. Cells are counted row by
/// row.
pub open spec fn food_laid(reports: Seq<Report>, width: u16, cell: int, n: int) -> int
    decreases n,
{
    if n <= 0 {
        0
    } else {
        food_laid(reports, width, cell, n - 1) + if reports[n - 1].1 * width + reports[n - 1].0
            == cell {
            reports[n - 1].2 as int
        } else {
            0
        }
    }
}

/// What the first `n` reports laid on a cell of the trail home.
pub open spec fn home_laid(reports: Seq<Report>, width: u16, cell: int, n: int) -> int
    decreases n,
{
    if n <= 0 {
        0
    } else {
        home_laid(reports, width, cell, n - 1) + if reports[n - 1].1 * width + reports[n - 1].0
            == cell {
            reports[n - 1].3 as int
        } else {
            0
        }
    }
}

/// The food trail at a cell: the low channel of the field.
pub open spec fn food_trail(field: Seq<u8>, width: u16, height: u16, x: int, y: int) -> nat {
    bytes::word_at(field, 2 * (y * width + x), 2)
}

/// The home trail at a cell: the channel behind the food trail.
pub open spec fn home_trail(field: Seq<u8>, width: u16, height: u16, x: int, y: int) -> nat {
    bytes::word_at(field, 2 * (width * height) + 2 * (y * width + x), 2)
}

/// What decay leaves of a trail, with `laid` added, up to the largest strength.
pub open spec fn faded_and_laid(strength: nat, decay: u16, laid: int) -> int {
    let faded = if strength <= decay {
        0
    } else {
        strength - decay
    };
    if faded + laid > 65535 {
        65535
    } else {
        faded + laid
    }
}

/// The trails are where the field's layout says.
pub proof fn law_trails_lie_one_behind_the_other(field: Seq<u8>, width: u16, height: u16, x: int, y: int)
    requires
        0 <= x < width,
        0 <= y < height,
        field.len() >= 4 * (width * height),
    ensures
        colony::trail_at(field, width * height, 0, y * width + x) as nat == food_trail(
            field,
            width,
            height,
            x,
            y,
        ),
        colony::trail_at(field, width * height, 1, y * width + x) as nat == home_trail(
            field,
            width,
            height,
            x,
            y,
        ),
        0 <= y * width + x < width * height,
{
    colony::lemma_cell_in_grid(x, y, width as int, height as int);
    let cells = width * height;
    let cell = y * width + x;
    assert(0 * cells == 0 && 1 * cells == cells) by (nonlinear_arith);
    bytes::lemma_radix_values();
    bytes::lemma_le_bytes_of_value(field.subrange(2 * cell, 2 * cell + 2));
    bytes::lemma_le_bytes_of_value(
        field.subrange(2 * cells + 2 * cell, 2 * cells + 2 * cell + 2),
    );
}

proof fn lemma_strengthened(
    field: Seq<u8>,
    cells: int,
    trail: int,
    cell: int,
    by: u16,
    other_trail: int,
    other: int,
)
    requires
        0 <= cell < cells,
        0 <= other < cells,
        trail == 0 || trail == 1,
        other_trail == 0 || other_trail == 1,
        field.len() >= 4 * cells,
    ensures
        ({
            let after = ant_colony::strengthened(field, cells, trail, cell, by);
            let before = colony::trail_at(field, cells, other_trail, other);
            &&& after.len() == field.len()
            &&& colony::trail_at(after, cells, other_trail, other) as int == if trail == other_trail
                && cell == other {
                if before + by > 65535 {
                    65535
                } else {
                    before + by
                }
            } else {
                before as int
            }
        }),
{
    ant_observe::lemma_offset_fits(cells, trail, cell);
    ant_observe::lemma_offset_fits(cells, other_trail, other);
    assert(0 * cells == 0 && 1 * cells == cells) by (nonlinear_arith);
    if by > 0 {
        let value = ant_colony::more(colony::trail_at(field, cells, trail, cell), by);
        colony::law_trail_reads_back(field, cells, trail, cell, value, other_trail, other);
    }
}

proof fn lemma_marked(
    field: Seq<u8>,
    width: u16,
    height: u16,
    reports: Seq<Report>,
    n: int,
    x: int,
    y: int,
)
    requires
        0 <= x < width,
        0 <= y < height,
        0 <= n <= reports.len(),
        field.len() >= 4 * (width * height),
    ensures
        ({
            let cells = width * height;
            let after = ant_colony::marked(field, cells, width as int, reports, n);
            let food = colony::trail_at(field, cells, 0, y * width + x) + food_laid(
                reports,
                width,
                y * width + x,
                n,
            );
            let home = colony::trail_at(field, cells, 1, y * width + x) + home_laid(
                reports,
                width,
                y * width + x,
                n,
            );
            &&& after.len() == field.len()
            &&& food_laid(reports, width, y * width + x, n) >= 0
            &&& home_laid(reports, width, y * width + x, n) >= 0
            &&& colony::trail_at(after, cells, 0, y * width + x) as int == if food > 65535 {
                65535
            } else {
                food
            }
            &&& colony::trail_at(after, cells, 1, y * width + x) as int == if home > 65535 {
                65535
            } else {
                home
            }
        }),
    decreases n,
{
    let cells = width * height;
    let at = y * width + x;
    colony::lemma_cell_in_grid(x, y, width as int, height as int);
    if n > 0 {
        lemma_marked(field, width, height, reports, n - 1, x, y);
        let before = ant_colony::marked(field, cells, width as int, reports, n - 1);
        let (rx, ry, food, home) = reports[n - 1];
        let cell = ry * width + rx;
        assert(cell >= 0) by (nonlinear_arith)
            requires
                cell == ry * width + rx,
        ;
        if cell < cells {
            lemma_strengthened(before, cells, 0, cell, food, 0, at);
            lemma_strengthened(before, cells, 0, cell, food, 1, at);
            let mid = ant_colony::strengthened(before, cells, 0, cell, food);
            lemma_strengthened(mid, cells, 1, cell, home, 0, at);
            lemma_strengthened(mid, cells, 1, cell, home, 1, at);
        }
    }
}

/// After an epoch the food trail at a cell is what decay has left of it and the food
/// that the reports from that cell laid, and the home trail likewise with what they
/// laid of it. No trail passes the largest strength, and a cell without reports is
/// only decayed.
pub proof fn law_an_epoch_fades_and_lays_each_trail(
    field: Seq<u8>,
    width: u16,
    height: u16,
    decay: u16,
    reports: Seq<Report>,
    x: int,
    y: int,
)
    requires
        0 <= x < width,
        0 <= y < height,
        field.len() >= 4 * (width * height),
    ensures
        ({
            let after = ant_colony::field_after(field, width, height, decay, reports);
            let n = reports.len() as int;
            &&& after.len() == field.len()
            &&& food_trail(after, width, height, x, y) == faded_and_laid(
                food_trail(field, width, height, x, y),
                decay,
                food_laid(reports, width, y * width + x, n),
            )
            &&& home_trail(after, width, height, x, y) == faded_and_laid(
                home_trail(field, width, height, x, y),
                decay,
                home_laid(reports, width, y * width + x, n),
            )
        }),
{
    let cells = width * height;
    let at = y * width + x;
    let n = reports.len() as int;
    colony::lemma_cell_in_grid(x, y, width as int, height as int);
    let first = ant_colony::decayed(field, cells, 0, decay, cells);
    let faded = ant_colony::decayed(first, cells, 1, decay, cells);
    lemma_faded_len(field, cells, 0, decay, cells);
    lemma_faded_len(first, cells, 1, decay, cells);
    ant_colony::law_decay_is_uniform(field, cells, 0, decay, cells, at);
    ant_colony::law_decay_is_uniform(first, cells, 1, decay, cells, at);
    lemma_marked(faded, width, height, reports, n, x, y);
    let after = ant_colony::field_after(field, width, height, decay, reports);
    law_trails_lie_one_behind_the_other(field, width, height, x, y);
    law_trails_lie_one_behind_the_other(after, width, height, x, y);
}

proof fn lemma_faded_len(field: Seq<u8>, cells: int, trail: int, decay: u16, n: int)
    ensures
        ant_colony::decayed(field, cells, trail, decay, n).len() == field.len(),
    decreases n,
{
    if n > 0 {
        lemma_faded_len(field, cells, trail, decay, n - 1);
    }
}

// ---- from an ant to the field ----------------------------------------------

/// What an ant laid in an epoch is what its colony counts in the next: the whole
/// record, unless it lays nothing.
pub proof fn law_a_colony_counts_what_its_ants_laid(held: Seq<u8>, ant: AntFrame, epoch: u32)
    requires
        held.len() == 32,
        ant.carrying == 0 || ant.carrying == 1,
    ensures
        ({
            let reply = Ok::<Seq<u8>, RuntimeError>(ant_colony::deposited(held, ant, epoch));
            let counted = ant_colony::counted(reply, epoch);
            if ant.deposit_amount == 0 {
                counted is None
            } else {
                counted == Some(
                    Deposit {
                        epoch,
                        x: ant.x,
                        y: ant.y,
                        food: if ant.carrying == 1 {
                            ant.deposit_amount
                        } else {
                            0
                        },
                        home: if ant.carrying == 0 {
                            ant.deposit_amount
                        } else {
                            0
                        },
                    },
                )
            }
        }),
{
    let at = 16 * colony::slot_of(epoch);
    let record = ant_colony::laid(ant, epoch);
    colony::law_deposit_reads_back(record, held, at);
}

/// A colony counts no record that bears another epoch, and none that lays nothing, and
/// none of an object that it cannot read.
pub proof fn law_a_stale_record_is_not_counted(held: Seq<u8>, want: u32)
    requires
        held.len() == 32,
    ensures
        ({
            let at = if want as int % 2 == 0 {
                0int
            } else {
                16
            };
            let record = Deposit::read_at(held, at);
            let counted = ant_colony::counted(Ok::<Seq<u8>, RuntimeError>(held), want);
            &&& counted is Some <==> record.epoch == want && (record.food != 0 || record.home != 0)
            &&& counted is Some ==> counted == Some(record)
            &&& ant_colony::counted(Err(RuntimeError::Unavailable), want) is None
        }),
{
}

/// The stages read in an epoch what was written in the one before.
pub proof fn law_stages_read_the_previous_epoch(epoch: u32)
    ensures
        epoch > 0 ==> ant_colony::previous(epoch) == epoch - 1,
        epoch == 0 ==> ant_colony::previous(epoch) == u32::MAX,
{
}

/// Every record that counts is reported, each once and in the order of the ants.
pub proof fn law_every_counted_record_is_reported(
    replies: Seq<Result<Seq<u8>, RuntimeError>>,
    want: u32,
    n: int,
)
    requires
        0 <= n < replies.len(),
    ensures
        ant_colony::all_counted(replies, want, 0) == Seq::<Deposit>::empty(),
        ({
            let before = ant_colony::all_counted(replies, want, n);
            let after = ant_colony::all_counted(replies, want, n + 1);
            match ant_colony::counted(replies[n], want) {
                Some(record) => after == before.push(record),
                None => after == before,
            }
        }),
{
}

proof fn lemma_record_words(records: Seq<Deposit>, n: int)
    requires
        0 <= n <= records.len(),
    ensures
        ant_colony::record_words(records, n).len() == 4 * n,
        forall|i: int|
            0 <= i < n ==> {
                &&& #[trigger] ant_colony::record_words(records, n)[4 * i] == (
                    records[i].x as nat,
                    2nat,
                )
                &&& ant_colony::record_words(records, n)[4 * i + 1] == (records[i].y as nat, 2nat)
                &&& ant_colony::record_words(records, n)[4 * i + 2] == (
                    records[i].food as nat,
                    2nat,
                )
                &&& ant_colony::record_words(records, n)[4 * i + 3] == (
                    records[i].home as nat,
                    2nat,
                )
            },
        forall|j: int|
            0 <= j < 4 * n ==> (#[trigger] ant_colony::record_words(records, n)[j]).1 == 2
                && ant_colony::record_words(records, n)[j].0 < 0x1_0000,
    decreases n,
{
    if n > 0 {
        lemma_record_words(records, n - 1);
        let before = ant_colony::record_words(records, n - 1);
        let after = ant_colony::record_words(records, n);
        assert forall|i: int| 0 <= i < n implies {
            &&& #[trigger] after[4 * i] == (records[i].x as nat, 2nat)
            &&& after[4 * i + 1] == (records[i].y as nat, 2nat)
            &&& after[4 * i + 2] == (records[i].food as nat, 2nat)
            &&& after[4 * i + 3] == (records[i].home as nat, 2nat)
        } by {
            if i < n - 1 {
                assert(after[4 * i] == before[4 * i]);
                assert(after[4 * i + 1] == before[4 * i + 1]);
                assert(after[4 * i + 2] == before[4 * i + 2]);
                assert(after[4 * i + 3] == before[4 * i + 3]);
            }
        }
        assert forall|j: int| 0 <= j < 4 * n implies (#[trigger] after[j]).1 == 2 && after[j].0
            < 0x1_0000 by {
            if j < 4 * (n - 1) {
                assert(after[j] == before[j]);
            }
        }
    }
}

proof fn lemma_even_offsets(words: Seq<(nat, nat)>, i: int)
    requires
        0 <= i <= words.len(),
        forall|j: int| 0 <= j < words.len() ==> (#[trigger] words[j]).1 == 2,
    ensures
        frame::word_offset(words, i) == 2 * i,
    decreases i,
{
    if i > 0 {
        lemma_even_offsets(words, i - 1);
    }
}

/// The world reads out of a colony's summary, an epoch later, what the colony put into
/// it: the column, the row, the food and the home of each record, in order.
pub proof fn law_the_world_reads_what_colonies_report(
    held: Seq<u8>,
    ants: nat,
    epoch: u32,
    records: Seq<Deposit>,
    i: int,
)
    requires
        held.len() == 2 * (4 + 8 * ants),
        records.len() <= ants,
        records.len() <= u32::MAX,
        0 <= i < records.len(),
    ensures
        ({
            let after = ant_colony::summarized(held, ants, epoch, records);
            let reports = ant_colony::reported(Ok::<Seq<u8>, RuntimeError>(after), epoch);
            &&& after.len() == held.len()
            &&& reports.len() == records.len()
            &&& reports[i] == (records[i].x, records[i].y, records[i].food, records[i].home)
        }),
{
    let slot = 4 + 8 * ants as int;
    let at = slot * colony::slot_of(epoch);
    assert(at == 0 || at == slot) by (nonlinear_arith)
        requires
            at == slot * colony::slot_of(epoch),
            colony::slot_of(epoch) == 0 || colony::slot_of(epoch) == 1,
    ;
    let n = records.len() as int;
    let words = ant_colony::record_words(records, n);
    let body = frame::packed(words);
    let patch = ant_colony::summary_of(records);
    let after = ant_colony::summarized(held, ants, epoch, records);
    bytes::lemma_radix_values();
    bytes::lemma_le_round_trip(records.len(), 4);
    lemma_record_words(records, n);
    frame::lemma_packed_len(words);
    lemma_even_offsets(words, words.len() as int);
    assert(patch.len() == 4 + 8 * n);
    assert(after == bytes::spliced(held, at, patch));
    assert(after.len() as int / 2 == slot);
    assert(after.subrange(at, at + 4) =~= bytes::le_bytes(records.len(), 4));
    assert(bytes::word_at(after, at, 4) == records.len());
    assert(records.len() <= (slot - 4) / 8);
    assert forall|k: int| 0 <= k < 4 implies bytes::word_at(
        after,
        at + 4 + 2 * (4 * i + k),
        2,
    ) == (#[trigger] words[4 * i + k]).0 by {
        let j = 4 * i + k;
        lemma_even_offsets(words, j);
        frame::lemma_packed_word(words, j);
        assert(after.subrange(at + 4 + 2 * j, at + 4 + 2 * j + 2) =~= body.subrange(
            2 * j,
            2 * j + 2,
        ));
    }
    assert(words[4 * i] == (records[i].x as nat, 2nat));
    assert(words[4 * i + 0] == words[4 * i]);
    let from = at + 4 + 8 * i;
    assert(bytes::word_at(after, from, 2) == words[4 * i + 0].0);
    assert(bytes::word_at(after, from + 2, 2) == words[4 * i + 1].0);
    assert(bytes::word_at(after, from + 4, 2) == words[4 * i + 2].0);
    assert(bytes::word_at(after, from + 6, 2) == words[4 * i + 3].0);
}

/// The reports of all colonies reach the field, one colony behind the other.
pub proof fn law_every_colony_reports(
    replies: Seq<Result<Seq<u8>, RuntimeError>>,
    want: u32,
    n: int,
)
    requires
        0 <= n < replies.len(),
    ensures
        ant_colony::all_reported(replies, want, n + 1) == ant_colony::all_reported(
            replies,
            want,
            n,
        ) + ant_colony::reported(replies[n], want),
        ant_colony::all_reported(replies, want, 0).len() == 0,
        ant_colony::reported(Err(RuntimeError::Unavailable), want).len() == 0,
{
}

} // verus!
