//! What is said of a difference between two maps.

use crate::mapper::{MapDiff, UuidChange};
use crate::text::{owned, texts};
use crate::uniquifier::concat;
use vstd::prelude::*;

verus! {

/// The sort of change that a line speaks of.
#[derive(Debug, Clone, Copy, PartialEq, Eq)]
pub enum Change {
    Added,
    Removed,
    Renumbered,
}

/// A line of a report.
pub struct Row {
    pub change: Change,
    /// The line stands above those that belong to it.
    pub heading: bool,
    pub text: String,
}

/// A line of a report, as plain values.
pub ghost struct RowView {
    pub change: Change,
    pub heading: bool,
    pub text: Seq<char>,
}

impl View for Row {
    type V = RowView;

    open spec fn view(&self) -> RowView {
        RowView { change: self.change, heading: self.heading, text: self.text@ }
    }
}

pub open spec fn row_views(rows: Seq<Row>) -> Seq<RowView> {
    Seq::new(rows.len(), |i: int| rows[i]@)
}

/// The lines for the items of one sort: none for no items, else a heading and a
/// line for each.
pub open spec fn rows_for(change: Change, label: Seq<char>, items: Seq<Seq<char>>) -> Seq<RowView> {
    if items.len() == 0 {
        Seq::empty()
    } else {
        seq![RowView { change, heading: true, text: label }] + Seq::new(
            items.len(),
            |i: int| RowView { change, heading: false, text: items[i] },
        )
    }
}

/// What is said of a path whose UUID has changed.
pub open spec fn renumbering(c: UuidChange) -> Seq<char> {
    c.old_uuid@ + " → "@ + c.new_uuid@ + "  ("@ + c.path@ + ")"@
}

pub open spec fn renumberings(cs: Seq<UuidChange>) -> Seq<Seq<char>> {
    Seq::new(cs.len(), |i: int| renumbering(cs[i]))
}

/// The report of a difference: what was added and what was removed, of each
/// sort in turn, and the UUIDs that have changed.
pub open spec fn report_of(d: MapDiff) -> Seq<RowView> {
    rows_for(Change::Added, "added targets"@, texts(d.added.targets@))
        + rows_for(Change::Removed, "removed targets"@, texts(d.removed.targets@))
        + rows_for(Change::Added, "added groups"@, texts(d.added.groups@))
        + rows_for(Change::Removed, "removed groups"@, texts(d.removed.groups@))
        + rows_for(Change::Added, "added files"@, texts(d.added.files@))
        + rows_for(Change::Removed, "removed files"@, texts(d.removed.files@))
        + rows_for(Change::Added, "added build entries"@, texts(d.added.build_phase_entries@))
        + rows_for(
            Change::Removed,
            "removed build entries"@,
            texts(d.removed.build_phase_entries@),
        ) + rows_for(Change::Renumbered, "UUID changes"@, renumberings(d.uuid_changes@))
}

fn push_row(rows: &mut Vec<Row>, change: Change, heading: bool, text: String)
    ensures
        row_views(final(rows)@) == row_views(old(rows)@).push(
            RowView { change, heading, text: text@ },
        ),
{
    let ghost before = rows@;
    rows.push(Row { change, heading, text });
    assert(row_views(rows@) =~= row_views(before).push(RowView { change, heading, text: text@ }));
}

fn push_section(rows: &mut Vec<Row>, change: Change, label: &str, items: &Vec<String>)
    ensures
        row_views(final(rows)@) == row_views(old(rows)@) + rows_for(
            change,
            label@,
            texts(items@),
        ),
{
    let ghost before = row_views(rows@);
    let ghost all = rows_for(change, label@, texts(items@));
    if items.len() > 0 {
        push_row(rows, change, true, owned(label));
        assert(before.push(all[0]) =~= before + all.take(1));
        let mut i: usize = 0;
        while i < items.len()
            invariant
                i <= items@.len(),
                items@.len() > 0,
                all == rows_for(change, label@, texts(items@)),
                row_views(rows@) == before + all.take(i + 1),
            decreases items.len() - i,
        {
            push_row(rows, change, false, owned(items[i].as_str()));
            assert((before + all.take(i + 1)).push(all[i + 1]) =~= before + all.take(i + 2));
            i += 1;
        }
        assert(all.take(i + 1) =~= all);
    } else {
        assert(before + all =~= before);
    }
}

/// The lines that report a difference.
pub fn report(d: &MapDiff) -> (rows: Vec<Row>)
    ensures
        row_views(rows@) == report_of(*d),
{
    let mut rows: Vec<Row> = Vec::new();
    assert(row_views(rows@) =~= Seq::<RowView>::empty());
    assert(Seq::<RowView>::empty() + rows_for(
        Change::Added,
        "added targets"@,
        texts(d.added.targets@),
    ) =~= rows_for(Change::Added, "added targets"@, texts(d.added.targets@)));
    push_section(&mut rows, Change::Added, "added targets", &d.added.targets);
    push_section(&mut rows, Change::Removed, "removed targets", &d.removed.targets);
    push_section(&mut rows, Change::Added, "added groups", &d.added.groups);
    push_section(&mut rows, Change::Removed, "removed groups", &d.removed.groups);
    push_section(&mut rows, Change::Added, "added files", &d.added.files);
    push_section(&mut rows, Change::Removed, "removed files", &d.removed.files);
    push_section(
        &mut rows,
        Change::Added,
        "added build entries",
        &d.added.build_phase_entries,
    );
    push_section(
        &mut rows,
        Change::Removed,
        "removed build entries",
        &d.removed.build_phase_entries,
    );
    let mut changes: Vec<String> = Vec::new();
    let mut i: usize = 0;
    while i < d.uuid_changes.len()
        invariant
            i <= d.uuid_changes@.len(),
            texts(changes@) == renumberings(d.uuid_changes@).take(i as int),
        decreases d.uuid_changes.len() - i,
    {
        let c = &d.uuid_changes[i];
        let mut text = concat(c.old_uuid.as_str(), " → ");
        text.push_str(c.new_uuid.as_str());
        text.push_str("  (");
        text.push_str(c.path.as_str());
        text.push_str(")");
        let ghost before = changes@;
        changes.push(text);
        assert(texts(changes@) =~= texts(before).push(renumbering(*c)));
        assert(renumberings(d.uuid_changes@).take(i + 1) =~= renumberings(d.uuid_changes@).take(
            i as int,
        ).push(renumbering(*c)));
        i += 1;
    }
    assert(texts(changes@) =~= renumberings(d.uuid_changes@));
    push_section(&mut rows, Change::Renumbered, "UUID changes", &changes);
    rows
}

} // verus!
