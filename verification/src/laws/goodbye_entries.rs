//! What a decoder reports of goodbye tables.

use vstd::prelude::*;

use crate::decoder::model::{
    initial_decoder, lemma_next_item, lemma_step_measure, DecoderView, ItemResult, State, StepView,
};
use crate::decoder::read::InputView;
use crate::entry::{EntryView, KindView};
use crate::errors::Error;
use crate::format::PXAR_FILENAME;
use crate::laws::entries::is_boundary;
use crate::metadata::MetadataView;

verus! {

/// The number of directories that a decoder is in. A directory is left with its goodbye table.
pub open spec fn open_directories(d: DecoderView) -> int {
    d.path_lengths.len() - if d.state is InGoodbyeTable {
        1int
    } else {
        0int
    }
}

/// What a report does to the number of directories that a decoder is in.
pub open spec fn entered(report: Option<EntryView>) -> int {
    match report {
        Some(entry) => match entry.kind {
            KindView::Directory => 1,
            KindView::GoodbyeTable => -1,
            _ => 0,
        },
        None => 0,
    }
}

/// These entries are reported one after the other, up to `last`.
pub open spec fn reports(d: DecoderView, entries: Seq<EntryView>, last: DecoderView) -> bool
    decreases entries.len(),
{
    if entries.len() == 0 {
        last == d
    } else {
        d.next() matches Ok((e, Some(entry))) && entry == entries[0] && reports(
            e,
            entries.skip(1),
            last,
        )
    }
}

/// The number of directories among some entries.
pub open spec fn directories(entries: Seq<EntryView>) -> nat
    decreases entries.len(),
{
    if entries.len() == 0 {
        0
    } else {
        directories(entries.skip(1)) + if entries[0].kind is Directory {
            1nat
        } else {
            0nat
        }
    }
}

/// The number of goodbye tables among some entries.
pub open spec fn goodbye_tables(entries: Seq<EntryView>) -> nat
    decreases entries.len(),
{
    if entries.len() == 0 {
        0
    } else {
        goodbye_tables(entries.skip(1)) + if entries[0].kind is GoodbyeTable {
            1nat
        } else {
            0nat
        }
    }
}

/// With goodbye tables included, a decoder of any archive has reported one for each directory but
/// those that it is still in, and at the end of the archive for each directory.
pub proof fn law_goodbye_tables(
    input: InputView,
    path: Seq<u8>,
    eof_after_entry: bool,
    entries: Seq<EntryView>,
    last: DecoderView,
)
    requires
        reports(
            DecoderView {
                with_goodbye_tables: true,
                ..initial_decoder(input, path, eof_after_entry)
            },
            entries,
            last,
        ),
    ensures
        directories(entries) - goodbye_tables(entries) == open_directories(last),
        last.next() matches Ok((_, None)) ==> directories(entries) == goodbye_tables(entries),
{
    let d = DecoderView {
        with_goodbye_tables: true,
        ..initial_decoder(input, path, eof_after_entry)
    };
    lemma_reports_balance(d, entries, last);
    lemma_next_balance(last);
}

proof fn lemma_reports_balance(d: DecoderView, entries: Seq<EntryView>, last: DecoderView)
    requires
        d.with_goodbye_tables,
        d.state is Eof ==> d.path_lengths.len() == 0,
        reports(d, entries, last),
    ensures
        last.with_goodbye_tables,
        last.state is Eof ==> last.path_lengths.len() == 0,
        open_directories(last) - open_directories(d) == directories(entries) - goodbye_tables(
            entries,
        ),
    decreases entries.len(),
{
    if entries.len() > 0 {
        lemma_next_balance(d);
        lemma_reports_balance(d.next()->Ok_0.0, entries.skip(1), last);
    }
}

proof fn lemma_next_balance(d: DecoderView)
    requires
        d.with_goodbye_tables,
        d.state is Eof ==> d.path_lengths.len() == 0,
    ensures
        d.next() matches Ok((e, report)) ==> {
            &&& e.with_goodbye_tables
            &&& e.state is Eof ==> e.path_lengths.len() == 0
            &&& report is None ==> e.state is Eof
            &&& open_directories(e) == open_directories(d) + entered(report)
        },
    decreases d.measure(),
{
    lemma_step_measure(d);
    lemma_step_balance(d);
    if let Ok((e, StepView::Continue)) = d.step() {
        lemma_next_balance(e);
    }
}

proof fn lemma_step_balance(d: DecoderView)
    requires
        d.with_goodbye_tables,
        d.state is Eof ==> d.path_lengths.len() == 0,
    ensures
        d.step() matches Ok((e, step)) ==> {
            &&& e.with_goodbye_tables
            &&& e.state is Eof ==> e.path_lengths.len() == 0
            &&& match step {
                StepView::Report(report) => {
                    &&& report is None ==> e.state is Eof
                    &&& open_directories(e) == open_directories(d) + entered(report)
                },
                StepView::Continue => open_directories(e) == open_directories(d),
            }
        },
{
    match d.state {
        State::Begin => {
            lemma_entry_balance(d);
        },
        State::Default => {
            lemma_item_balance(d);
        },
        State::InPayload { offset } => {
            if let Ok(s) = d.skip_content(offset) {
                lemma_item_balance(s);
            }
        },
        State::InSpecialFile | State::InDirectory => {
            lemma_boundary_balance(d.started());
        },
        _ => {},
    }
}

proof fn lemma_item_balance(d: DecoderView)
    requires
        d.with_goodbye_tables,
        d.state is Default || d.state is InPayload,
    ensures
        d.next_item() matches Ok((i, _)) ==> (i.at_boundary() matches Ok((e, step)) ==> {
            &&& e.with_goodbye_tables
            &&& !(e.state is Eof)
            &&& step matches StepView::Report(Some(entry)) && open_directories(e)
                == open_directories(d) + entered(Some(entry))
        }),
{
    lemma_next_item(d);
    if let Ok((i, _)) = d.next_item() {
        assert(!(i.state is InGoodbyeTable));
        lemma_boundary_balance(i);
    }
}

proof fn lemma_boundary_balance(d: DecoderView)
    requires
        d.with_goodbye_tables,
        !(d.state is InGoodbyeTable),
    ensures
        d.at_boundary() matches Ok((e, step)) ==> {
            &&& e.with_goodbye_tables
            &&& !(e.state is Eof)
            &&& step matches StepView::Report(Some(entry)) && open_directories(e)
                == open_directories(d) + entered(Some(entry))
        },
{
    if let Ok((data, c)) = d.take_content() {
        let path = c.path_in_directory(data.drop_last());
        lemma_entry_balance(DecoderView { entry: EntryView { path, ..c.entry }, ..c });
    }
}

/// Reading an entry enters it where it is a directory.
proof fn lemma_entry_balance(d: DecoderView)
    ensures
        d.next_entry() matches Ok((e, entry)) ==> {
            &&& e.with_goodbye_tables == d.with_goodbye_tables
            &&& !(e.state is Eof) && !(e.state is InGoodbyeTable)
            &&& !(entry.kind is GoodbyeTable)
            &&& e.path_lengths.len() == d.path_lengths.len() + entered(Some(entry))
        },
{
    if let Ok(Some(h)) = d.restarted().next_header_or_eof() {
        if let Ok(s) = h.stat_item(h.header.htype) {
            lemma_rest_balance(s);
        }
    }
}

proof fn lemma_rest_balance(d: DecoderView)
    requires
        d.state is Default,
    ensures
        d.rest_of_entry() matches Ok(e) ==> {
            &&& e.with_goodbye_tables == d.with_goodbye_tables
            &&& !(e.state is Eof) && !(e.state is InGoodbyeTable)
            &&& !(e.entry.kind is GoodbyeTable)
            &&& e.path_lengths == d.path_lengths
        },
    decreases d.input.unread.len(),
{
    lemma_next_item(d);
    if let Ok(Some((e, ItemResult::Attribute))) = d.next_item_or_eof() {
        lemma_rest_balance(e);
    }
}

/// Two decoders are at the same place of the same archive, with nothing put together of the next
/// entry. They may differ in whether they include goodbye tables.
pub open spec fn side_by_side(a: DecoderView, b: DecoderView) -> bool {
    &&& a.entry.metadata == MetadataView::empty()
    &&& b == (DecoderView {
        entry: EntryView { kind: b.entry.kind, ..a.entry },
        with_goodbye_tables: b.with_goodbye_tables,
        ..a
    })
}

/// The entry that stands for a goodbye table.
pub open spec fn table_entry() -> EntryView {
    EntryView {
        path: Seq::empty(),
        metadata: MetadataView::empty(),
        kind: KindView::GoodbyeTable,
    }
}

/// The next report of a decoder that is no goodbye table.
pub open spec fn next_other(d: DecoderView) -> Result<(DecoderView, Option<EntryView>), Error>
    decreases d.measure(),
{
    proof {
        lemma_table_measure(d);
    }
    match d.next() {
        Ok((e, Some(entry))) => if entry.kind is GoodbyeTable {
            next_other(e)
        } else {
            Ok((e, Some(entry)))
        },
        r => r,
    }
}

/// Two reports tell the same, and leave the decoders side by side.
pub open spec fn same_report(
    a: Result<(DecoderView, Option<EntryView>), Error>,
    b: Result<(DecoderView, Option<EntryView>), Error>,
) -> bool {
    match (a, b) {
        (Ok((d, entry)), Ok((e, other))) => entry == other && side_by_side(d, e),
        (Err(e), Err(f)) => e == f,
        _ => false,
    }
}

/// Whatever the archive, a decoder that includes goodbye tables reports, but for them, what one
/// reports that does not. The latter reports none, and each of the former has an empty path and no
/// metadata.
pub proof fn law_tables_on_request(d: DecoderView, e: DecoderView)
    requires
        d.with_goodbye_tables,
        !e.with_goodbye_tables,
        side_by_side(d, e),
    ensures
        same_report(next_other(d), e.next()),
        d.next() matches Ok((f, Some(entry))) ==> entry.kind is GoodbyeTable ==> entry
            == table_entry(),
        e.next() matches Ok((f, Some(entry))) ==> !(entry.kind is GoodbyeTable),
    decreases d.measure(),
{
    lemma_table_measure(d);
    lemma_step_measure(d);
    lemma_step_measure(e);
    lemma_step_side_by_side(d, e);
    match d.step() {
        Ok((f, StepView::Continue)) => {
            law_tables_on_request(f, e.step()->Ok_0.0);
        },
        Ok((f, StepView::Report(Some(entry)))) => {
            if entry.kind is GoodbyeTable {
                law_tables_on_request(f, e.step()->Ok_0.0);
            }
        },
        _ => {},
    }
}

/// The entries that are no goodbye tables.
pub open spec fn others(entries: Seq<EntryView>) -> Seq<EntryView>
    decreases entries.len(),
{
    if entries.len() == 0 {
        Seq::empty()
    } else if entries[0].kind is GoodbyeTable {
        others(entries.skip(1))
    } else {
        seq![entries[0]] + others(entries.skip(1))
    }
}

/// Whatever the archive, the entries that are reported with goodbye tables are, but for the tables,
/// those that are reported without, in the same order, and the archive ends or is refused in the
/// same way.
pub proof fn law_same_entries(
    d: DecoderView,
    e: DecoderView,
    entries: Seq<EntryView>,
    last: DecoderView,
) -> (f: DecoderView)
    requires
        d.with_goodbye_tables,
        !e.with_goodbye_tables,
        side_by_side(d, e),
        reports(d, entries, last),
        !(last.next() matches Ok((_, Some(_)))),
    ensures
        reports(e, others(entries), f),
        same_report(last.next(), f.next()),
    decreases entries.len(),
{
    law_tables_on_request(d, e);
    if entries.len() == 0 {
        e
    } else {
        let (next, _) = d.next()->Ok_0;
        lemma_next_flag(d);
        lemma_next_flag(e);
        if entries[0].kind is GoodbyeTable {
            // without tables the decoder reports what comes behind
            let behind = lemma_behind_table(d, e);
            let f = law_same_entries(next, behind, entries.skip(1), last);
            if others(entries).len() == 0 {
                e
            } else {
                f
            }
        } else {
            let f = law_same_entries(next, e.next()->Ok_0.0, entries.skip(1), last);
            assert(others(entries).skip(1) =~= others(entries.skip(1)));
            f
        }
    }
}

/// A decoder that goes past a goodbye table without a report.
proof fn lemma_behind_table(d: DecoderView, e: DecoderView) -> (f: DecoderView)
    requires
        d.with_goodbye_tables,
        !e.with_goodbye_tables,
        side_by_side(d, e),
        d.next() matches Ok((_, Some(entry))) && entry.kind is GoodbyeTable,
    ensures
        !f.with_goodbye_tables,
        side_by_side(d.next()->Ok_0.0, f),
        e.next() == f.next(),
    decreases d.measure(),
{
    lemma_step_measure(d);
    lemma_step_side_by_side(d, e);
    let f = e.step()->Ok_0.0;
    if let Ok((g, StepView::Continue)) = d.step() {
        lemma_behind_table(g, f)
    } else {
        f
    }
}

/// The report of a goodbye table brings the decoder closer to the end.
pub proof fn lemma_table_measure(d: DecoderView)
    ensures
        d.next() matches Ok((e, Some(entry))) ==> entry.kind is GoodbyeTable ==> e.measure()
            < d.measure(),
    decreases d.measure(),
{
    lemma_step_measure(d);
    lemma_step_table_measure(d);
    if let Ok((e, StepView::Continue)) = d.step() {
        lemma_table_measure(e);
    }
}

proof fn lemma_step_table_measure(d: DecoderView)
    ensures
        d.step() matches Ok((e, StepView::Report(Some(entry)))) ==> entry.kind is GoodbyeTable
            ==> e.measure() < d.measure(),
{
    lemma_next_item(d);
    lemma_entry_balance(d);
    match d.state {
        State::Default => {
            if let Ok((e, _)) = d.next_item() {
                lemma_boundary_table(e);
            }
        },
        State::InPayload { offset } => {
            if let Ok(s) = d.skip_content(offset) {
                lemma_next_item(s);
                if let Ok((e, _)) = s.next_item() {
                    lemma_boundary_table(e);
                }
            }
        },
        State::InSpecialFile | State::InDirectory => {
            lemma_boundary_table(d.started());
        },
        _ => {},
    }
}

proof fn lemma_boundary_table(d: DecoderView)
    ensures
        d.at_boundary() matches Ok((e, step)) ==> {
            &&& e.with_goodbye_tables == d.with_goodbye_tables
            &&& step matches StepView::Report(Some(entry)) ==> entry.kind is GoodbyeTable ==> {
                &&& e.state is InGoodbyeTable
                &&& e.path_lengths == d.path_lengths
            }
        },
{
    if let Ok((data, c)) = d.take_content() {
        let path = c.path_in_directory(data.drop_last());
        lemma_entry_balance(DecoderView { entry: EntryView { path, ..c.entry }, ..c });
    }
}

/// The setting of a decoder stays as it is.
proof fn lemma_next_flag(d: DecoderView)
    ensures
        d.next() matches Ok((e, _)) ==> e.with_goodbye_tables == d.with_goodbye_tables,
    decreases d.measure(),
{
    lemma_step_measure(d);
    lemma_step_flag(d);
    if let Ok((e, StepView::Continue)) = d.step() {
        lemma_next_flag(e);
    }
}

proof fn lemma_step_flag(d: DecoderView)
    ensures
        d.step() matches Ok((e, _)) ==> e.with_goodbye_tables == d.with_goodbye_tables,
{
    lemma_next_item(d);
    lemma_entry_balance(d);
    match d.state {
        State::Default => {
            if let Ok((e, _)) = d.next_item() {
                lemma_boundary_table(e);
            }
        },
        State::InPayload { offset } => {
            if let Ok(s) = d.skip_content(offset) {
                lemma_next_item(s);
                if let Ok((e, _)) = s.next_item() {
                    lemma_boundary_table(e);
                }
            }
        },
        State::InSpecialFile | State::InDirectory => {
            lemma_boundary_table(d.started());
        },
        _ => {},
    }
}

/// What a step does with goodbye tables and what it does without.
spec fn same_step(
    a: Result<(DecoderView, StepView), Error>,
    b: Result<(DecoderView, StepView), Error>,
) -> bool {
    match (a, b) {
        (Ok((d, step)), Ok((e, other))) => {
            &&& d.with_goodbye_tables
            &&& !e.with_goodbye_tables
            &&& side_by_side(d, e)
            &&& match step {
                StepView::Continue => other is Continue,
                StepView::Report(None) => other == StepView::Report(None),
                StepView::Report(Some(entry)) => if entry.kind is GoodbyeTable {
                    entry == table_entry() && other is Continue
                } else {
                    other == StepView::Report(Some(entry))
                },
            }
        },
        (Err(e), Err(f)) => e == f,
        _ => false,
    }
}

proof fn lemma_step_side_by_side(d: DecoderView, e: DecoderView)
    requires
        d.with_goodbye_tables,
        !e.with_goodbye_tables,
        side_by_side(d, e),
    ensures
        same_step(d.step(), e.step()),
{
    match d.state {
        State::Begin => {
            lemma_entry_side_by_side(d, e);
        },
        State::Default => {
            lemma_item_side_by_side(d, e);
        },
        State::InPayload { offset } => {
            if let Ok(s) = d.skip_content(offset) {
                lemma_item_side_by_side(s, e.skip_content(offset)->Ok_0);
            }
        },
        State::InSpecialFile | State::InDirectory => {
            lemma_boundary_side_by_side(d.started(), e.started());
        },
        _ => {},
    }
}

/// The next item and what follows it.
proof fn lemma_item_side_by_side(d: DecoderView, e: DecoderView)
    requires
        d.with_goodbye_tables,
        !e.with_goodbye_tables,
        side_by_side(d, e),
    ensures
        match (d.next_item(), e.next_item()) {
            (Ok((f, _)), Ok((g, _))) => same_step(f.at_boundary(), g.at_boundary()),
            (Err(e), Err(f)) => e == f,
            _ => false,
        },
{
    if let Ok((f, _)) = d.next_item() {
        let (g, _) = e.next_item()->Ok_0;
        if is_boundary(f.header) {
            lemma_boundary_side_by_side(f, g);
        }
    }
}

proof fn lemma_boundary_side_by_side(d: DecoderView, e: DecoderView)
    requires
        d.with_goodbye_tables,
        !e.with_goodbye_tables,
        side_by_side(d, e),
    ensures
        same_step(d.at_boundary(), e.at_boundary()),
{
    if d.header.htype == PXAR_FILENAME {
        if let Ok((data, c)) = d.take_content() {
            let (_, b) = e.take_content()->Ok_0;
            let path = c.path_in_directory(data.drop_last());
            lemma_entry_side_by_side(
                DecoderView { entry: EntryView { path, ..c.entry }, ..c },
                DecoderView { entry: EntryView { path, ..b.entry }, ..b },
            );
        }
    }
}

proof fn lemma_entry_side_by_side(d: DecoderView, e: DecoderView)
    requires
        d.with_goodbye_tables,
        !e.with_goodbye_tables,
        side_by_side(d, e),
    ensures
        match (d.next_entry(), e.next_entry()) {
            (Ok((f, entry)), Ok((g, other))) => {
                &&& f.with_goodbye_tables
                &&& !g.with_goodbye_tables
                &&& side_by_side(f, g)
                &&& entry == other
                &&& !(entry.kind is GoodbyeTable)
            },
            (Err(e), Err(f)) => e == f,
            _ => false,
        },
{
    lemma_entry_balance(d);
    if let Ok(Some(h)) = d.restarted().next_header_or_eof() {
        if let Ok(s) = h.stat_item(h.header.htype) {
            lemma_rest_side_by_side(s);
        }
    }
}

/// Reading the items of an entry has nothing to do with goodbye tables.
proof fn lemma_rest_side_by_side(d: DecoderView)
    ensures
        (DecoderView { with_goodbye_tables: false, ..d }).rest_of_entry()
            == match d.rest_of_entry() {
            Ok(e) => Ok(DecoderView { with_goodbye_tables: false, ..e }),
            Err(e) => Err(e),
        },
    decreases d.input.unread.len(),
{
    lemma_next_item(d);
    let e = DecoderView { with_goodbye_tables: false, ..d };
    if let Ok(Some((f, item))) = d.next_item_or_eof() {
        assert(e.next_item_or_eof() == Ok::<_, Error>(
            Some((DecoderView { with_goodbye_tables: false, ..f }, item)),
        ));
        lemma_rest_side_by_side(f);
    }
}

} // verus!
