//! Laws of the library, stated and proved over the same spec functions the
//! public contracts use.
use vstd::prelude::*;

use crate::aggregate::{ff_cell, fa_cell, is_author_name, is_file_name, records_of};
use crate::assoc::assoc_get;
use crate::codec::{load_fold, mget, LoadState};
use crate::db::{has_name, name_idx, rows_of, ColabNetDatabase};
use crate::parse::EventModel;
use crate::text::{has_arrow, lemma_sorted_names_unique, views_of};

verus! {

/// Rename normalization is the identity on text without a `=>` marker.
pub proof fn lemma_normalize_identity(s: Seq<char>)
    requires
        !has_arrow(s),
    ensures
        crate::normalize::spec_normalize(s) == s,
{
}

/// A loaded file-file table is symmetric: both directions of an edge carry
/// the same count.
pub proof fn lemma_load_fold_ff_symmetric(lines: Seq<Seq<char>>, load_ff: bool)
    ensures
        forall|i: int, j: int|
            #[trigger] mget(load_fold(lines, load_ff).ff, i, j) == mget(
                load_fold(lines, load_ff).ff,
                j,
                i,
            ),
    decreases lines.len(),
{
    if lines.len() > 0 {
        lemma_load_fold_ff_symmetric(lines.drop_last(), load_ff);
        let st = load_fold(lines.drop_last(), load_ff);
        let st2 = load_fold(lines, load_ff);
        assert forall|i: int, j: int|
            #[trigger] mget(st2.ff, i, j) == mget(st2.ff, j, i) by {
            if st2.ff != st.ff {
                assert(mget(st.ff, i, j) == mget(st.ff, j, i));
            }
        }
    }
}

/// Symmetry: when a loaded snapshot holds a co-change edge between two
/// distinct files, querying the cousins of either file reports the other
/// with the same count.
pub proof fn lemma_cousins_symmetric(
    db: &ColabNetDatabase,
    lines: Seq<Seq<char>>,
    a: Seq<char>,
    b: Seq<char>,
    c: u32,
)
    requires
        db.wf(),
        views_of(db.files@) == load_fold(lines, true).files,
        forall|fi: int, g: u32|
            #[trigger] db.ff_at(fi, g) == mget(load_fold(lines, true).ff, fi, g as int),
        a != b,
        has_name(views_of(db.files@), a),
        has_name(views_of(db.files@), b),
        db.ff_at(
            name_idx(views_of(db.files@), a),
            name_idx(views_of(db.files@), b) as u32,
        ) == Some(c),
    ensures
        db.cousins_model(a) is Some && exists|k: int|
            0 <= k < db.cousins_model(a)->Some_0.len() && db.cousins_model(a)->Some_0[k] == (b, c),
        db.cousins_model(b) is Some && exists|k: int|
            0 <= k < db.cousins_model(b)->Some_0.len() && db.cousins_model(b)->Some_0[k] == (a, c),
{
    let fv = views_of(db.files@);
    let ia = name_idx(fv, a);
    let ib = name_idx(fv, b);
    assert(0 <= ia < fv.len());
    assert(0 <= ib < fv.len());
    assert(ia != ib);
    lemma_load_fold_ff_symmetric(lines, true);
    assert(db.ff_at(ia, ib as u32) == mget(load_fold(lines, true).ff, ia, ib));
    assert(db.ff_at(ib, ia as u32) == mget(load_fold(lines, true).ff, ib, ia));
    assert(db.ff_at(ib, ia as u32) == Some(c));
    lemma_cousin_edge_reported(db, a, b, c);
    lemma_cousin_edge_reported(db, b, a, c);
}

/// A present co-change edge shows up in the cousins rows of its first file.
proof fn lemma_cousin_edge_reported(db: &ColabNetDatabase, a: Seq<char>, b: Seq<char>, c: u32)
    requires
        db.wf(),
        has_name(views_of(db.files@), a),
        has_name(views_of(db.files@), b),
        db.ff_at(
            name_idx(views_of(db.files@), a),
            name_idx(views_of(db.files@), b) as u32,
        ) == Some(c),
    ensures
        db.cousins_model(a) is Some && exists|k: int|
            0 <= k < db.cousins_model(a)->Some_0.len() && db.cousins_model(a)->Some_0[k] == (b, c),
{
    let fv = views_of(db.files@);
    let ia = name_idx(fv, a);
    let ib = name_idx(fv, b);
    let row = rows_of(db.files_to_files@)[ia];
    crate::assoc::lemma_assoc_get_wf(row, ib as u32);
    let v = assoc_get(row, ib as u32)->Some_0;
    let k = choose|k: int| 0 <= k < row.len() && row[k] == (ib as u32, v);
    assert(db.cousins_rows(ia)[k] == (fv[row[k].0 as int], row[k].1));
    assert(fv[ib] == b);
    assert(db.cousins_rows(ia)[k] == (b, c));
    assert(db.cousins_rows(ia).len() > 0);
    assert(db.cousins_model(a) == Some(db.cousins_rows(ia)));
    assert(0 <= k < db.cousins_model(a)->Some_0.len() && db.cousins_model(a)->Some_0[k] == (
    b,
    c,
    ));
}

/// Idempotent aggregation: any two databases meeting the aggregator's
/// contract for the same event stream have the same name lists and the
/// same weights everywhere — the tables are a function of the stream.
pub proof fn lemma_aggregation_deterministic(
    d1: &ColabNetDatabase,
    d2: &ColabNetDatabase,
    events: Seq<EventModel>,
)
    requires
        d1.wf(),
        d2.wf(),
        forall|x: Seq<char>| views_of(d1.authors@).contains(x) <==> is_author_name(events, x),
        forall|x: Seq<char>| views_of(d1.files@).contains(x) <==> is_file_name(events, x),
        forall|x: Seq<char>| views_of(d2.authors@).contains(x) <==> is_author_name(events, x),
        forall|x: Seq<char>| views_of(d2.files@).contains(x) <==> is_file_name(events, x),
        forall|fi: int, a: int|
            0 <= fi < d1.files@.len() && 0 <= a < d1.authors@.len() ==> #[trigger] d1.fa_at(
                fi,
                a as u32,
            ) == fa_cell(
                views_of(d1.files@),
                views_of(d1.authors@),
                records_of(events),
                fi,
                a,
            ),
        forall|fi: int, g: int|
            0 <= fi < d1.files@.len() && 0 <= g < d1.files@.len() ==> #[trigger] d1.ff_at(
                fi,
                g as u32,
            ) == ff_cell(events, views_of(d1.files@), fi, g),
        forall|fi: int, a: int|
            0 <= fi < d2.files@.len() && 0 <= a < d2.authors@.len() ==> #[trigger] d2.fa_at(
                fi,
                a as u32,
            ) == fa_cell(
                views_of(d2.files@),
                views_of(d2.authors@),
                records_of(events),
                fi,
                a,
            ),
        forall|fi: int, g: int|
            0 <= fi < d2.files@.len() && 0 <= g < d2.files@.len() ==> #[trigger] d2.ff_at(
                fi,
                g as u32,
            ) == ff_cell(events, views_of(d2.files@), fi, g),
    ensures
        views_of(d1.authors@) == views_of(d2.authors@),
        views_of(d1.files@) == views_of(d2.files@),
        forall|fi: int, a: int|
            0 <= fi < d1.files@.len() && 0 <= a < d1.authors@.len() ==> #[trigger] d1.fa_at(
                fi,
                a as u32,
            ) == d2.fa_at(fi, a as u32),
        forall|fi: int, g: int|
            0 <= fi < d1.files@.len() && 0 <= g < d1.files@.len() ==> #[trigger] d1.ff_at(
                fi,
                g as u32,
            ) == d2.ff_at(fi, g as u32),
{
    assert forall|y: Seq<char>|
        views_of(d1.authors@).contains(y) <==> views_of(d2.authors@).contains(y) by {
        assert(views_of(d1.authors@).contains(y) <==> is_author_name(events, y));
        assert(views_of(d2.authors@).contains(y) <==> is_author_name(events, y));
    }
    assert forall|y: Seq<char>|
        views_of(d1.files@).contains(y) <==> views_of(d2.files@).contains(y) by {
        assert(views_of(d1.files@).contains(y) <==> is_file_name(events, y));
        assert(views_of(d2.files@).contains(y) <==> is_file_name(events, y));
    }
    lemma_sorted_names_unique(views_of(d1.authors@), views_of(d2.authors@));
    lemma_sorted_names_unique(views_of(d1.files@), views_of(d2.files@));
}

/// The relation the skip-section law maintains between the two readers.
spec fn skip_rel(sf: LoadState, st: LoadState) -> bool {
    &&& sf.authors == st.authors
    &&& sf.files == st.files
    &&& sf.fa == st.fa
    &&& sf.ff == Map::<(int, int), u32>::empty()
    &&& (!sf.stopped ==> !st.stopped && sf.mode == st.mode)
    &&& (sf.stopped ==> st.stopped || st.mode >= 3)
}

/// Skip-section optimization: loading with file-file ingestion disabled
/// yields the same authors, files and file→author weights as a full load,
/// and an empty file→file table.
pub proof fn lemma_skip_file_file_section(lines: Seq<Seq<char>>)
    ensures
        load_fold(lines, false).authors == load_fold(lines, true).authors,
        load_fold(lines, false).files == load_fold(lines, true).files,
        load_fold(lines, false).fa == load_fold(lines, true).fa,
        load_fold(lines, false).ff == Map::<(int, int), u32>::empty(),
{
    lemma_skip_rel(lines);
}

proof fn lemma_skip_rel(lines: Seq<Seq<char>>)
    ensures
        skip_rel(load_fold(lines, false), load_fold(lines, true)),
    decreases lines.len(),
{
    if lines.len() == 0 {
        assert(load_fold(lines, false).ff =~= Map::<(int, int), u32>::empty());
    } else {
        lemma_skip_rel(lines.drop_last());
        let sf = load_fold(lines.drop_last(), false);
        let st = load_fold(lines.drop_last(), true);
        let sf2 = load_fold(lines, false);
        let st2 = load_fold(lines, true);
        let line = lines.last();
        if !sf.stopped {
            if line.len() == 0 {
            } else if sf.mode == 3 {
                assert(sf2.stopped);
                assert(st2.authors == st.authors);
                assert(st2.files == st.files);
                assert(st2.fa == st.fa);
            } else {
            }
        } else {
            if st.stopped {
            } else {
                assert(st.mode >= 3);
                assert(st2.authors == st.authors);
                assert(st2.files == st.files);
                assert(st2.fa == st.fa);
                assert(st2.stopped || st2.mode >= 3);
            }
        }
    }
}

} // verus!
