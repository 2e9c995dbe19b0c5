//! Aggregation: folds the parsed event stream into the two weighted graphs.
//! A first pass collects the sorted author and file name lists (positions
//! become ids) and the change records; a second charges each record's count
//! to its (file, author) edge; a third counts, for every commit group closed
//! by a boundary, each unordered pair of its files — self-pairs included —
//! into the mirrored file→file table.
use vstd::prelude::*;

use crate::assoc::sat_add;
use crate::db::ColabNetDatabase;
use crate::parse::{EventModel, LogEvent, models_of};
use crate::text::{insert_sorted, sorted_names, views_of};

verus! {

/// One change record: a `Change` event joined with the author in force.
pub struct RecordModel {
    pub author: Seq<char>,
    pub file: Seq<char>,
    pub changes: u32,
}

/// The author in force after `events`: the text of the last `Author` event,
/// or empty text before any.
pub open spec fn author_after(events: Seq<EventModel>) -> Seq<char>
    decreases events.len(),
{
    if events.len() == 0 {
        Seq::empty()
    } else {
        match events.last() {
            EventModel::Author(a) => a,
            _ => author_after(events.drop_last()),
        }
    }
}

/// The change records of the stream, in order, each charged to the author
/// in force where its line stood.
pub open spec fn records_of(events: Seq<EventModel>) -> Seq<RecordModel>
    decreases events.len(),
{
    if events.len() == 0 {
        Seq::empty()
    } else {
        let rest = records_of(events.drop_last());
        match events.last() {
            EventModel::Change { file, changes } => rest.push(
                RecordModel { author: author_after(events.drop_last()), file, changes },
            ),
            _ => rest,
        }
    }
}

/// Whether some record charges author `a` for file `f`.
pub open spec fn has_record(rs: Seq<RecordModel>, f: Seq<char>, a: Seq<char>) -> bool {
    exists|i: int| 0 <= i < rs.len() && rs[i].file == f && rs[i].author == a
}

/// Total change count of the records charging `a` for `f`, summed with
/// saturation.
pub open spec fn fa_total(rs: Seq<RecordModel>, f: Seq<char>, a: Seq<char>) -> u32
    decreases rs.len(),
{
    if rs.len() == 0 {
        0
    } else {
        let p = fa_total(rs.drop_last(), f, a);
        if rs.last().file == f && rs.last().author == a {
            sat_add(p, rs.last().changes)
        } else {
            p
        }
    }
}

/// Whether file `x` belongs to the commit group still open after `events`:
/// changed since the last boundary.
pub open spec fn in_group_after(events: Seq<EventModel>, x: Seq<char>) -> bool
    decreases events.len(),
{
    if events.len() == 0 {
        false
    } else {
        match events.last() {
            EventModel::Boundary => false,
            EventModel::Change { file, changes } => file == x || in_group_after(
                events.drop_last(),
                x,
            ),
            EventModel::Author(_) => in_group_after(events.drop_last(), x),
        }
    }
}

/// Number of closed commit groups containing both `f` and `g`, counted with
/// saturation; `f == g` counts the groups containing the file at all. This
/// is symmetric in `f` and `g` by construction.
pub open spec fn ff_count(events: Seq<EventModel>, f: Seq<char>, g: Seq<char>) -> u32
    decreases events.len(),
{
    if events.len() == 0 {
        0
    } else {
        let p = ff_count(events.drop_last(), f, g);
        match events.last() {
            EventModel::Boundary => {
                if in_group_after(events.drop_last(), f) && in_group_after(
                    events.drop_last(),
                    g,
                ) {
                    sat_add(p, 1)
                } else {
                    p
                }
            },
            _ => p,
        }
    }
}

/// The author names the stream mentions: each `Author` event's text, and
/// the charged author of each record (empty text, when a change precedes
/// every `Author` line).
pub open spec fn is_author_name(events: Seq<EventModel>, x: Seq<char>) -> bool {
    (exists|i: int| 0 <= i < events.len() && events[i] == EventModel::Author(x)) || (exists|i: int|
        0 <= i < records_of(events).len() && records_of(events)[i].author == x)
}

/// The file names the stream mentions: each record's normalized file.
pub open spec fn is_file_name(events: Seq<EventModel>, x: Seq<char>) -> bool {
    exists|i: int| 0 <= i < records_of(events).len() && records_of(events)[i].file == x
}

/// One change record as executable data.
struct Record {
    author: String,
    file: String,
    changes: u32,
}

spec fn rec_models(rs: Seq<Record>) -> Seq<RecordModel> {
    Seq::new(
        rs.len(),
        |i: int| RecordModel { author: rs[i].author@, file: rs[i].file@, changes: rs[i].changes },
    )
}

/// First pass: the sorted author and file name lists and the record list.
fn collect(events: &Vec<LogEvent>) -> (r: (Vec<String>, Vec<String>, Vec<Record>))
    ensures
        sorted_names(views_of(r.0@)),
        sorted_names(views_of(r.1@)),
        forall|x: Seq<char>|
            views_of(r.0@).contains(x) <==> is_author_name(models_of(events@), x),
        forall|x: Seq<char>| views_of(r.1@).contains(x) <==> is_file_name(models_of(events@), x),
        rec_models(r.2@) == records_of(models_of(events@)),
        r.0@.len() <= events@.len() + 1,
        r.1@.len() <= events@.len(),
{
    let ghost m = models_of(events@);
    let mut authors: Vec<String> = Vec::new();
    let mut files: Vec<String> = Vec::new();
    let mut records: Vec<Record> = Vec::new();
    let mut cur_author: String = String::new();
    let mut k: usize = 0;
    proof {
        assert(m.take(0) =~= Seq::<EventModel>::empty());
        assert(rec_models(records@) =~= records_of(m.take(0)));
        assert(views_of(authors@).len() == 0);
        assert(views_of(files@).len() == 0);
    }
    while k < events.len()
        invariant
            k <= events.len(),
            m == models_of(events@),
            m.len() == events@.len(),
            sorted_names(views_of(authors@)),
            sorted_names(views_of(files@)),
            cur_author@ == author_after(m.take(k as int)),
            forall|x: Seq<char>|
                views_of(authors@).contains(x) <==> is_author_name(m.take(k as int), x),
            forall|x: Seq<char>|
                views_of(files@).contains(x) <==> is_file_name(m.take(k as int), x),
            rec_models(records@) == records_of(m.take(k as int)),
            authors@.len() <= k + 1,
            files@.len() <= k,
        decreases events.len() - k,
    {
        let ghost pre = m.take(k as int);
        let ghost post = m.take(k as int + 1);
        proof {
            assert(post =~= pre.push(m[k as int]));
            assert(post.drop_last() =~= pre);
            assert(m[k as int] == events@[k as int].model());
        }
        match &events[k] {
            LogEvent::Author(a) => {
                cur_author = a.clone();
                insert_sorted(&mut authors, a.clone());
                proof {
                    assert(records_of(post) =~= records_of(pre));
                    assert(author_after(post) == a@);
                    assert forall|x: Seq<char>|
                        views_of(authors@).contains(x) <==> is_author_name(post, x) by {
                        lemma_name_step_author(pre, post, a@, x);
                    }
                }
            },
            LogEvent::Change { file, changes } => {
                insert_sorted(&mut authors, cur_author.clone());
                insert_sorted(&mut files, file.clone());
                let ghost oldrecs = records@;
                records.push(
                    Record { author: cur_author.clone(), file: file.clone(), changes: *changes },
                );
                proof {
                    assert(author_after(post) == author_after(pre));
                    assert(records_of(post) =~= records_of(pre).push(
                        RecordModel { author: author_after(pre), file: file@, changes: *changes },
                    ));
                    assert(rec_models(records@) =~= records_of(post)) by {
                        assert forall|i: int|
                            0 <= i < records@.len() implies rec_models(records@)[i] == records_of(
                            post,
                        )[i] by {
                            if i < oldrecs.len() {
                                assert(records@[i] == oldrecs[i]);
                                assert(rec_models(oldrecs)[i] == records_of(pre)[i]);
                            }
                        }
                    }
                    assert forall|x: Seq<char>|
                        views_of(authors@).contains(x) <==> is_author_name(post, x) by {
                        lemma_name_step_change(pre, post, author_after(pre), file@, *changes, x);
                    }
                    assert forall|x: Seq<char>|
                        views_of(files@).contains(x) <==> is_file_name(post, x) by {
                        lemma_name_step_change(pre, post, author_after(pre), file@, *changes, x);
                    }
                }
            },
            LogEvent::Boundary => {
                proof {
                    assert(records_of(post) =~= records_of(pre));
                    assert(author_after(post) == author_after(pre));
                    assert forall|x: Seq<char>|
                        views_of(authors@).contains(x) <==> is_author_name(post, x) by {
                        lemma_name_step_quiet(pre, post, x);
                    }
                }
            },
        }
        k = k + 1;
    }
    proof {
        assert(m.take(events.len() as int) =~= m);
    }
    (authors, files, records)
}

/// Appending an `Author` event adds exactly its name to the author names.
proof fn lemma_name_step_author(
    pre: Seq<EventModel>,
    post: Seq<EventModel>,
    a: Seq<char>,
    x: Seq<char>,
)
    requires
        post == pre.push(EventModel::Author(a)),
        records_of(post) == records_of(pre),
    ensures
        is_author_name(post, x) <==> (is_author_name(pre, x) || x == a),
{
    if is_author_name(post, x) {
        if exists|i: int| 0 <= i < post.len() && post[i] == EventModel::Author(x) {
            let i = choose|i: int| 0 <= i < post.len() && post[i] == EventModel::Author(x);
            if i < pre.len() {
                assert(pre[i] == EventModel::Author(x));
            } else {
                assert(x == a);
            }
        }
    }
    if is_author_name(pre, x) {
        if exists|i: int| 0 <= i < pre.len() && pre[i] == EventModel::Author(x) {
            let i = choose|i: int| 0 <= i < pre.len() && pre[i] == EventModel::Author(x);
            assert(post[i] == EventModel::Author(x));
        }
    }
    if x == a {
        assert(post[pre.len() as int] == EventModel::Author(x));
    }
}

/// Appending a `Change` event adds its charged author to the author names
/// and its file to the file names.
proof fn lemma_name_step_change(
    pre: Seq<EventModel>,
    post: Seq<EventModel>,
    cur: Seq<char>,
    f: Seq<char>,
    ch: u32,
    x: Seq<char>,
)
    requires
        post == pre.push(EventModel::Change { file: f, changes: ch }),
        cur == author_after(pre),
        records_of(post) == records_of(pre).push(
            RecordModel { author: cur, file: f, changes: ch },
        ),
    ensures
        is_author_name(post, x) <==> (is_author_name(pre, x) || x == cur),
        is_file_name(post, x) <==> (is_file_name(pre, x) || x == f),
{
    let rpre = records_of(pre);
    let rpost = records_of(post);
    assert(rpost[rpre.len() as int].author == cur);
    assert(rpost[rpre.len() as int].file == f);
    if is_author_name(post, x) {
        if exists|i: int| 0 <= i < post.len() && post[i] == EventModel::Author(x) {
            let i = choose|i: int| 0 <= i < post.len() && post[i] == EventModel::Author(x);
            if i < pre.len() {
                assert(pre[i] == EventModel::Author(x));
            }
        }
        if exists|i: int| 0 <= i < rpost.len() && rpost[i].author == x {
            let i = choose|i: int| 0 <= i < rpost.len() && rpost[i].author == x;
            if i < rpre.len() {
                assert(rpre[i].author == x);
            } else {
                assert(x == cur);
            }
        }
    }
    if is_author_name(pre, x) {
        if exists|i: int| 0 <= i < pre.len() && pre[i] == EventModel::Author(x) {
            let i = choose|i: int| 0 <= i < pre.len() && pre[i] == EventModel::Author(x);
            assert(post[i] == EventModel::Author(x));
        }
        if exists|i: int| 0 <= i < rpre.len() && rpre[i].author == x {
            let i = choose|i: int| 0 <= i < rpre.len() && rpre[i].author == x;
            assert(rpost[i].author == x);
        }
    }
    if x == cur {
        assert(rpost[rpre.len() as int].author == x);
    }
    if is_file_name(post, x) {
        let i = choose|i: int| 0 <= i < rpost.len() && rpost[i].file == x;
        if i < rpre.len() {
            assert(rpre[i].file == x);
        }
    }
    if is_file_name(pre, x) {
        let i = choose|i: int| 0 <= i < rpre.len() && rpre[i].file == x;
        assert(rpost[i].file == x);
    }
    if x == f {
        assert(rpost[rpre.len() as int].file == x);
    }
}

/// Appending a `Boundary` event changes no name set.
proof fn lemma_name_step_quiet(pre: Seq<EventModel>, post: Seq<EventModel>, x: Seq<char>)
    requires
        post == pre.push(EventModel::Boundary),
        records_of(post) == records_of(pre),
    ensures
        is_author_name(post, x) <==> is_author_name(pre, x),
        is_file_name(post, x) <==> is_file_name(pre, x),
{
    if exists|i: int| 0 <= i < post.len() && post[i] == EventModel::Author(x) {
        let i = choose|i: int| 0 <= i < post.len() && post[i] == EventModel::Author(x);
        assert(i < pre.len());
        assert(pre[i] == EventModel::Author(x));
    }
    if exists|i: int| 0 <= i < pre.len() && pre[i] == EventModel::Author(x) {
        let i = choose|i: int| 0 <= i < pre.len() && pre[i] == EventModel::Author(x);
        assert(post[i] == EventModel::Author(x));
    }
}

} // verus!

verus! {

/// A pair nobody recorded accumulates nothing.
proof fn lemma_fa_total_absent(rs: Seq<RecordModel>, f: Seq<char>, a: Seq<char>)
    requires
        !has_record(rs, f, a),
    ensures
        fa_total(rs, f, a) == 0,
    decreases rs.len(),
{
    if rs.len() > 0 {
        assert(!has_record(rs.drop_last(), f, a)) by {
            if has_record(rs.drop_last(), f, a) {
                let i = choose|i: int|
                    0 <= i < rs.drop_last().len() && rs.drop_last()[i].file == f
                        && rs.drop_last()[i].author == a;
                assert(rs[i].file == f && rs[i].author == a);
            }
        }
        assert(!(rs.last().file == f && rs.last().author == a)) by {
            if rs.last().file == f && rs.last().author == a {
                assert(rs[rs.len() - 1].file == f && rs[rs.len() - 1].author == a);
            }
        }
        lemma_fa_total_absent(rs.drop_last(), f, a);
    }
}

/// The expected table cell for a (file id, author id) pair.
pub open spec fn fa_cell(
    files: Seq<Seq<char>>,
    authors: Seq<Seq<char>>,
    rs: Seq<RecordModel>,
    fi: int,
    a: int,
) -> Option<u32> {
    if has_record(rs, files[fi], authors[a]) {
        Some(fa_total(rs, files[fi], authors[a]))
    } else {
        None
    }
}

/// Second pass: charge every record's count to its (file, author) edge.
fn build_fa(files: &Vec<String>, authors: &Vec<String>, records: &Vec<Record>) -> (t: Vec<
    Vec<(u32, u32)>,
>)
    requires
        sorted_names(views_of(files@)),
        sorted_names(views_of(authors@)),
        files@.len() <= u32::MAX as nat,
        authors@.len() <= u32::MAX as nat,
        forall|k: int|
            0 <= k < records@.len() ==> views_of(files@).contains(
                (#[trigger] records@[k]).file@,
            ) && views_of(authors@).contains(records@[k].author@),
    ensures
        t@.len() == files@.len(),
        crate::db::tbl_wf(crate::db::rows_of(t@), authors@.len() as nat),
        forall|fi: int, a: int|
            0 <= fi < files@.len() && 0 <= a < authors@.len()
                ==> #[trigger] crate::assoc::assoc_get(crate::db::rows_of(t@)[fi], a as u32)
                == fa_cell(
                views_of(files@),
                views_of(authors@),
                rec_models(records@),
                fi,
                a,
            ),
{
    let ghost fv = views_of(files@);
    let ghost av = views_of(authors@);
    let ghost rm = rec_models(records@);
    let mut t: Vec<Vec<(u32, u32)>> = Vec::new();
    while t.len() < files.len()
        invariant
            t@.len() <= files@.len(),
            forall|i: int| 0 <= i < t@.len() ==> (#[trigger] t@[i])@.len() == 0,
        decreases files@.len() - t@.len(),
    {
        t.push(Vec::new());
    }
    let mut k: usize = 0;
    proof {
        assert(rm.take(0) =~= Seq::<RecordModel>::empty());
        assert forall|fi: int, a: int|
            0 <= fi < fv.len() && 0 <= a < av.len()
                implies #[trigger] crate::assoc::assoc_get(crate::db::rows_of(t@)[fi], a as u32)
            == fa_cell(fv, av, rm.take(0), fi, a) by {
            assert(crate::db::rows_of(t@)[fi] =~= Seq::<(u32, u32)>::empty());
        }
    }
    while k < records.len()
        invariant
            k <= records@.len(),
            t@.len() == files@.len(),
            fv == views_of(files@),
            av == views_of(authors@),
            rm == rec_models(records@),
            rm.len() == records@.len(),
            sorted_names(fv),
            sorted_names(av),
            files@.len() <= u32::MAX as nat,
            authors@.len() <= u32::MAX as nat,
            forall|k2: int|
                0 <= k2 < records@.len() ==> views_of(files@).contains(
                    (#[trigger] records@[k2]).file@,
                ) && views_of(authors@).contains(records@[k2].author@),
            crate::db::tbl_wf(crate::db::rows_of(t@), authors@.len() as nat),
            forall|fi: int, a: int|
                0 <= fi < fv.len() && 0 <= a < av.len()
                    ==> #[trigger] crate::assoc::assoc_get(crate::db::rows_of(t@)[fi], a as u32)
                    == fa_cell(fv, av, rm.take(k as int), fi, a),
        decreases records@.len() - k,
    {
        let rec = &records[k];
        proof {
            assert(rm[k as int].file == rec.file@);
            assert(rm[k as int].author == rec.author@);
            assert(rm[k as int].changes == rec.changes);
        }
        let fi = match crate::text::find_name(files, rec.file.as_str()) {
            Some(i) => i,
            None => {
                proof {
                    let w = choose|w: int| 0 <= w < fv.len() && fv[w] == rec.file@;
                    assert(files@[w]@ == rec.file@);
                    assert(false);
                }
                0
            },
        };
        let ai = match crate::text::find_name(authors, rec.author.as_str()) {
            Some(i) => i,
            None => {
                proof {
                    let w = choose|w: int| 0 <= w < av.len() && av[w] == rec.author@;
                    assert(authors@[w]@ == rec.author@);
                    assert(false);
                }
                0
            },
        };
        let ghost oldrows = crate::db::rows_of(t@);
        let ghost oldt = t@;
        let mut row = t.remove(fi);
        proof {
            assert(row@ == oldrows[fi as int]);
            assert(crate::assoc::assoc_wf(oldrows[fi as int]));
        }
        crate::assoc::assoc_bump(&mut row, ai as u32, rec.changes);
        let ghost newrow = row@;
        t.insert(fi, row);
        proof {
            let nrows = crate::db::rows_of(t@);
            assert forall|i: int| 0 <= i < nrows.len() && i != fi implies nrows[i]
                == oldrows[i] by {
                assert(t@[i] == oldt.remove(fi as int).insert(fi as int, t@[fi as int])[i]);
                if i < fi {
                    assert(oldt.remove(fi as int)[i] == oldt[i]);
                } else {
                    assert(oldt.remove(fi as int)[i - 1] == oldt[i]);
                }
            }
            assert(nrows[fi as int] == newrow);
            // Well-formedness of the changed row, keys still in bounds.
            assert(crate::db::tbl_wf(nrows, authors@.len() as nat)) by {
                assert(crate::assoc::assoc_wf(oldrows[fi as int]));
                assert forall|j: int|
                    0 <= j < newrow.len() implies ((#[trigger] newrow[j]).0 as nat)
                    < authors@.len() by {
                    if newrow[j].0 != ai as u32 {
                        let i = choose|i: int|
                            0 <= i < oldrows[fi as int].len() && oldrows[fi as int][i].0
                                == newrow[j].0;
                        assert((oldrows[fi as int][i].0 as nat) < authors@.len());
                    }
                }
                assert forall|i: int| 0 <= i < nrows.len() implies crate::assoc::assoc_wf(
                    #[trigger] nrows[i],
                ) by {
                    if i != fi {
                        assert(nrows[i] == oldrows[i]);
                    }
                }
                assert forall|i: int, j: int|
                    0 <= i < nrows.len() && 0 <= j < nrows[i].len() implies ((
                    #[trigger] nrows[i][j]).0 as nat) < authors@.len() by {
                    if i != fi {
                        assert(nrows[i] == oldrows[i]);
                        assert((oldrows[i][j].0 as nat) < authors@.len());
                    }
                }
            }
            // The cell update matches one more record folded in.
            let pre = rm.take(k as int);
            let post = rm.take(k as int + 1);
            assert(post =~= pre.push(rm[k as int]));
            assert(post.drop_last() =~= pre);
            assert forall|fj: int, b: int|
                0 <= fj < fv.len() && 0 <= b < av.len()
                    implies #[trigger] crate::assoc::assoc_get(nrows[fj], b as u32) == fa_cell(
                fv,
                av,
                post,
                fj,
                b,
            ) by {
                let f = fv[fj];
                let a = av[b];
                // Does the new record hit this cell?
                if fj == fi as int && b == ai as int {
                    assert(f == rec.file@);
                    assert(a == rec.author@);
                    assert(has_record(post, f, a)) by {
                        assert(post[pre.len() as int].file == f);
                        assert(post[pre.len() as int].author == a);
                    }
                    assert(fa_total(post, f, a) == sat_add(fa_total(pre, f, a), rec.changes));
                    if has_record(pre, f, a) {
                        assert(crate::assoc::assoc_get0(oldrows[fi as int], ai as u32)
                            == fa_total(pre, f, a));
                    } else {
                        lemma_fa_total_absent(pre, f, a);
                        assert(crate::assoc::assoc_get0(oldrows[fi as int], ai as u32) == 0);
                    }
                } else {
                    // Another cell: its names differ from the record's.
                    assert(f != rec.file@ || a != rec.author@) by {
                        if f == rec.file@ && a == rec.author@ {
                            assert(fv[fi as int] == rec.file@);
                            assert(av[ai as int] == rec.author@);
                            crate::text::lemma_sorted_distinct(fv, fj, fi as int);
                            crate::text::lemma_sorted_distinct(av, b, ai as int);
                        }
                    }
                    assert(!(rm[k as int].file == f && rm[k as int].author == a));
                    assert(fa_total(post, f, a) == fa_total(pre, f, a));
                    assert(has_record(post, f, a) == has_record(pre, f, a)) by {
                        if has_record(post, f, a) {
                            let w = choose|w: int|
                                0 <= w < post.len() && post[w].file == f && post[w].author == a;
                            assert(w < pre.len());
                            assert(pre[w].file == f && pre[w].author == a);
                        }
                        if has_record(pre, f, a) {
                            let w = choose|w: int|
                                0 <= w < pre.len() && pre[w].file == f && pre[w].author == a;
                            assert(post[w].file == f && post[w].author == a);
                        }
                    }
                    if fj == fi as int {
                        assert(b != ai as int);
                        assert(b as u32 != ai as u32);
                        assert(crate::assoc::assoc_get(newrow, b as u32)
                            == crate::assoc::assoc_get(oldrows[fj], b as u32));
                    } else {
                        assert(nrows[fj] == oldrows[fj]);
                    }
                }
            }
        }
        k = k + 1;
    }
    proof {
        assert(rm.take(records@.len() as int) =~= rm);
    }
    t
}

} // verus!

verus! {

/// Strictly ascending ids: a sorted, duplicate-free group.
spec fn sorted_ids(s: Seq<u32>) -> bool {
    forall|i: int, j: int| 0 <= i < j < s.len() ==> s[i] < s[j]
}

/// Whether the id `id` is in the group.
spec fn in_scr(s: Seq<u32>, id: int) -> bool {
    exists|t: int| 0 <= t < s.len() && s[t] as int == id
}

/// Position of `id` in the group (meaningful under `in_scr`).
spec fn scr_pos(s: Seq<u32>, id: int) -> int {
    choose|t: int| 0 <= t < s.len() && s[t] as int == id
}

proof fn lemma_scr_pos(s: Seq<u32>, t: int)
    requires
        sorted_ids(s),
        0 <= t < s.len(),
    ensures
        in_scr(s, s[t] as int),
        scr_pos(s, s[t] as int) == t,
{
    assert(in_scr(s, s[t] as int));
    let t2 = scr_pos(s, s[t] as int);
    if t2 < t {
        assert(s[t2] < s[t]);
    } else if t2 > t {
        assert(s[t] < s[t2]);
    }
}

proof fn lemma_scr_pos_range(s: Seq<u32>, id: int)
    requires
        in_scr(s, id),
    ensures
        0 <= scr_pos(s, id) < s.len(),
        s[scr_pos(s, id)] as int == id,
{
}

proof fn lemma_scr_pos_mono(s: Seq<u32>, a: int, b: int)
    requires
        sorted_ids(s),
        in_scr(s, a),
        in_scr(s, b),
        a <= b,
    ensures
        scr_pos(s, a) <= scr_pos(s, b),
{
    lemma_scr_pos_range(s, a);
    lemma_scr_pos_range(s, b);
    let pa = scr_pos(s, a);
    let pb = scr_pos(s, b);
    if pb < pa {
        assert(s[pb] < s[pa]);
    }
}

/// Inserts an id into a sorted duplicate-free group.
fn ins_id(v: &mut Vec<u32>, id: u32)
    requires
        sorted_ids(old(v)@),
    ensures
        sorted_ids(final(v)@),
        forall|x: int| in_scr(final(v)@, x) <==> (in_scr(old(v)@, x) || x == id as int),
{
    let mut k: usize = 0;
    loop
        invariant
            k <= v.len(),
            *v == *old(v),
            forall|j: int| 0 <= j < k ==> v@[j] < id,
        decreases v.len() - k,
    {
        if k == v.len() {
            break;
        }
        let e = v[k];
        if e == id {
            proof {
                assert(v@[k as int] as int == id as int);
                assert(in_scr(v@, id as int));
                assert forall|x: int| in_scr(final(v)@, x) implies (in_scr(old(v)@, x) || x
                    == id as int) by {}
            }
            return;
        }
        if e > id {
            break;
        }
        k = k + 1;
    }
    proof {
        if (k as int) < v@.len() {
            assert forall|j: int| k <= j < v@.len() implies id < v@[j] by {
                if k < j {
                    assert(v@[k as int] < v@[j]);
                }
            }
        }
    }
    let ghost ov = v@;
    v.insert(k, id);
    proof {
        let nv = v@;
        assert forall|a: int, b: int| 0 <= a < b < nv.len() implies nv[a] < nv[b] by {
            let ga = if a < k { ov[a] } else if a == k { id } else { ov[a - 1] };
            let gb = if b < k { ov[b] } else if b == k { id } else { ov[b - 1] };
            assert(nv[a] == ga);
            assert(nv[b] == gb);
        }
        assert forall|x: int| in_scr(nv, x) implies (in_scr(ov, x) || x == id as int) by {
            let t = choose|t: int| 0 <= t < nv.len() && nv[t] as int == x;
            if t < k {
                assert(ov[t] as int == x);
            } else if t > k {
                assert(ov[t - 1] as int == x);
            }
        }
        assert forall|x: int| in_scr(ov, x) || x == id as int implies in_scr(nv, x) by {
            if in_scr(ov, x) {
                let t = choose|t: int| 0 <= t < ov.len() && ov[t] as int == x;
                if t < k {
                    assert(nv[t] as int == x);
                } else {
                    assert(nv[t + 1] as int == x);
                }
            } else {
                assert(nv[k as int] as int == x);
            }
        }
    }
}

} // verus!

verus! {

/// A change event's file is in the file list.
spec fn event_file_ok(fv: Seq<Seq<char>>, e: EventModel) -> bool {
    match e {
        EventModel::Change { file, changes } => fv.contains(file),
        _ => true,
    }
}

/// The expected co-change cell for a (file id, file id) pair: the count when
/// it is positive, no entry otherwise.
pub open spec fn ff_cell(events: Seq<EventModel>, fv: Seq<Seq<char>>, fi: int, g: int) -> Option<
    u32,
> {
    if ff_count(events, fv[fi], fv[g]) > 0 {
        Some(ff_count(events, fv[fi], fv[g]))
    } else {
        None
    }
}

/// Table cell read, by ids.
spec fn cell_get(base: Seq<Seq<(u32, u32)>>, fi: int, g: int) -> Option<u32> {
    crate::assoc::assoc_get(base[fi], g as u32)
}

spec fn cell_get0(base: Seq<Seq<(u32, u32)>>, fi: int, g: int) -> u32 {
    match cell_get(base, fi, g) {
        Some(v) => v,
        None => 0,
    }
}

/// Whether the unordered pair `{fi, g}` has already been counted when the
/// flush loops stand at outer position `p`, inner position `q`.
spec fn pair_done(s: Seq<u32>, p: int, q: int, fi: int, g: int) -> bool {
    let a = if fi <= g {
        fi
    } else {
        g
    };
    let b = if fi <= g {
        g
    } else {
        fi
    };
    scr_pos(s, a) < p || (scr_pos(s, a) == p && scr_pos(s, b) < q)
}

/// The cell value in mid-flush: bumped once if the pair was counted already.
spec fn flush_cell(
    base: Seq<Seq<(u32, u32)>>,
    s: Seq<u32>,
    p: int,
    q: int,
    fi: int,
    g: int,
) -> Option<u32> {
    if in_scr(s, fi) && in_scr(s, g) && pair_done(s, p, q, fi, g) {
        Some(sat_add(cell_get0(base, fi, g), 1))
    } else {
        cell_get(base, fi, g)
    }
}

/// Third pass: count co-changes per closed commit group into the mirrored
/// file→file table.
#[verifier::rlimit(100)]
fn build_ff(files: &Vec<String>, events: &Vec<LogEvent>) -> (t: Vec<Vec<(u32, u32)>>)
    requires
        sorted_names(views_of(files@)),
        files@.len() <= u32::MAX as nat,
        forall|k: int|
            0 <= k < models_of(events@).len() ==> event_file_ok(
                views_of(files@),
                #[trigger] models_of(events@)[k],
            ),
    ensures
        t@.len() == files@.len(),
        crate::db::tbl_wf(crate::db::rows_of(t@), files@.len() as nat),
        forall|fi: int, g: int|
            0 <= fi < files@.len() && 0 <= g < files@.len()
                ==> #[trigger] crate::assoc::assoc_get(crate::db::rows_of(t@)[fi], g as u32)
                == ff_cell(models_of(events@), views_of(files@), fi, g),
{
    let ghost m = models_of(events@);
    let ghost fv = views_of(files@);
    let mut t: Vec<Vec<(u32, u32)>> = Vec::new();
    while t.len() < files.len()
        invariant
            t@.len() <= files@.len(),
            forall|i: int| 0 <= i < t@.len() ==> (#[trigger] t@[i])@.len() == 0,
        decreases files@.len() - t@.len(),
    {
        t.push(Vec::new());
    }
    let mut scratch: Vec<u32> = Vec::new();
    let mut k: usize = 0;
    proof {
        assert(m.take(0) =~= Seq::<EventModel>::empty());
        assert forall|fi: int, g: int|
            0 <= fi < fv.len() && 0 <= g < fv.len()
                implies #[trigger] crate::assoc::assoc_get(crate::db::rows_of(t@)[fi], g as u32)
            == ff_cell(m.take(0), fv, fi, g) by {
            assert(crate::db::rows_of(t@)[fi] =~= Seq::<(u32, u32)>::empty());
        }
    }
    while k < events.len()
        invariant
            k <= events.len(),
            m == models_of(events@),
            fv == views_of(files@),
            m.len() == events@.len(),
            sorted_names(fv),
            files@.len() <= u32::MAX as nat,
            forall|k2: int| 0 <= k2 < m.len() ==> event_file_ok(fv, #[trigger] m[k2]),
            t@.len() == files@.len(),
            crate::db::tbl_wf(crate::db::rows_of(t@), files@.len() as nat),
            sorted_ids(scratch@),
            forall|j: int| 0 <= j < scratch@.len() ==> ((#[trigger] scratch@[j]) as int) < fv.len(),
            forall|x: Seq<char>|
                in_group_after(m.take(k as int), x) <==> exists|tq: int|
                    0 <= tq < scratch@.len() && fv[#[trigger] scratch@[tq] as int] == x,
            forall|fi: int, g: int|
                0 <= fi < fv.len() && 0 <= g < fv.len()
                    ==> #[trigger] crate::assoc::assoc_get(crate::db::rows_of(t@)[fi], g as u32)
                    == ff_cell(m.take(k as int), fv, fi, g),
        decreases events.len() - k,
    {
        let ghost pre = m.take(k as int);
        let ghost post = m.take(k as int + 1);
        proof {
            assert(post =~= pre.push(m[k as int]));
            assert(post.drop_last() =~= pre);
            assert(m[k as int] == events@[k as int].model());
        }
        match &events[k] {
            LogEvent::Author(a) => {
                proof {
                    assert forall|x: Seq<char>|
                        in_group_after(post, x) == in_group_after(pre, x) by {}
                    assert forall|fi: int, g: int|
                        0 <= fi < fv.len() && 0 <= g < fv.len() implies ff_cell(post, fv, fi, g)
                        == ff_cell(pre, fv, fi, g) by {
                        assert(ff_count(post, fv[fi], fv[g]) == ff_count(pre, fv[fi], fv[g]));
                    }
                }
            },
            LogEvent::Change { file, changes } => {
                proof {
                    assert(fv.contains(file@));
                }
                let fid = match crate::text::find_name(files, file.as_str()) {
                    Some(i) => i,
                    None => {
                        proof {
                            let w = choose|w: int| 0 <= w < fv.len() && fv[w] == file@;
                            assert(files@[w]@ == file@);
                            assert(false);
                        }
                        0
                    },
                };
                let ghost oscr = scratch@;
                ins_id(&mut scratch, fid as u32);
                proof {
                    assert(fv[fid as int] == file@);
                    assert forall|j: int|
                        0 <= j < scratch@.len() implies ((#[trigger] scratch@[j]) as int)
                        < fv.len() by {
                        let x = scratch@[j] as int;
                        assert(in_scr(scratch@, x));
                        if in_scr(oscr, x) {
                            let t2 = choose|t2: int| 0 <= t2 < oscr.len() && oscr[t2] as int == x;
                            assert(((oscr[t2]) as int) < fv.len());
                        }
                    }
                    assert forall|x: Seq<char>|
                        in_group_after(post, x) <==> exists|tq: int|
                            0 <= tq < scratch@.len() && fv[#[trigger] scratch@[tq] as int]
                                == x by {
                        if in_group_after(post, x) {
                            if x == file@ {
                                assert(in_scr(scratch@, fid as int));
                                let tq = choose|tq: int|
                                    0 <= tq < scratch@.len() && scratch@[tq] as int == fid as int;
                                assert(fv[scratch@[tq] as int] == x);
                            } else {
                                assert(in_group_after(pre, x));
                                let t2 = choose|t2: int|
                                    0 <= t2 < oscr.len() && fv[oscr[t2] as int] == x;
                                let id = oscr[t2] as int;
                                assert(in_scr(oscr, id));
                                assert(in_scr(scratch@, id));
                                let tq = choose|tq: int|
                                    0 <= tq < scratch@.len() && scratch@[tq] as int == id;
                                assert(fv[scratch@[tq] as int] == x);
                            }
                        }
                        if exists|tq: int|
                            0 <= tq < scratch@.len() && fv[#[trigger] scratch@[tq] as int] == x {
                            let tq = choose|tq: int|
                                0 <= tq < scratch@.len() && fv[scratch@[tq] as int] == x;
                            let id = scratch@[tq] as int;
                            assert(in_scr(scratch@, id));
                            if id == fid as int {
                                assert(x == file@);
                            } else {
                                assert(in_scr(oscr, id));
                                let t2 = choose|t2: int|
                                    0 <= t2 < oscr.len() && oscr[t2] as int == id;
                                assert(fv[oscr[t2] as int] == x);
                                assert(in_group_after(pre, x));
                            }
                        }
                    }
                    assert forall|fi: int, g: int|
                        0 <= fi < fv.len() && 0 <= g < fv.len() implies ff_cell(post, fv, fi, g)
                        == ff_cell(pre, fv, fi, g) by {
                        assert(ff_count(post, fv[fi], fv[g]) == ff_count(pre, fv[fi], fv[g]));
                    }
                }
            },
            LogEvent::Boundary => {
                let ghost base = crate::db::rows_of(t@);
                let ghost scr = scratch@;
                let mut p: usize = 0;
                proof {
                    assert forall|fi: int, g: int|
                        0 <= fi < fv.len() && 0 <= g < fv.len()
                            implies #[trigger] crate::assoc::assoc_get(
                        crate::db::rows_of(t@)[fi],
                        g as u32,
                    ) == flush_cell(base, scr, 0, 0, fi, g) by {
                        if in_scr(scr, fi) && in_scr(scr, g) {
                            lemma_scr_pos_range(scr, if fi <= g { fi } else { g });
                        }
                    }
                }
                while p < scratch.len()
                    invariant
                        p <= scratch@.len(),
                        scratch@ == scr,
                        sorted_ids(scr),
                        fv == views_of(files@),
                        files@.len() <= u32::MAX as nat,
                        forall|j: int| 0 <= j < scr.len() ==> ((#[trigger] scr[j]) as int) < fv.len(),
                        t@.len() == files@.len(),
                        crate::db::tbl_wf(crate::db::rows_of(t@), files@.len() as nat),
                        forall|fi: int, g: int|
                            0 <= fi < fv.len() && 0 <= g < fv.len()
                                ==> #[trigger] crate::assoc::assoc_get(
                                crate::db::rows_of(t@)[fi],
                                g as u32,
                            ) == flush_cell(base, scr, p as int, p as int, fi, g),
                    decreases scratch@.len() - p,
                {
                    let mut q: usize = p;
                    while q < scratch.len()
                        invariant
                            p <= q <= scratch@.len(),
                            p < scratch@.len(),
                            scratch@ == scr,
                            sorted_ids(scr),
                            fv == views_of(files@),
                            files@.len() <= u32::MAX as nat,
                            forall|j: int|
                                0 <= j < scr.len() ==> ((#[trigger] scr[j]) as int) < fv.len(),
                            t@.len() == files@.len(),
                            crate::db::tbl_wf(crate::db::rows_of(t@), files@.len() as nat),
                            forall|fi: int, g: int|
                                0 <= fi < fv.len() && 0 <= g < fv.len()
                                    ==> #[trigger] crate::assoc::assoc_get(
                                    crate::db::rows_of(t@)[fi],
                                    g as u32,
                                ) == flush_cell(base, scr, p as int, q as int, fi, g),
                        decreases scratch@.len() - q,
                    {
                        let a = scratch[p];
                        let b = scratch[q];
                        proof {
                            lemma_scr_pos(scr, p as int);
                            lemma_scr_pos(scr, q as int);
                        }
                        let ghost rows0 = crate::db::rows_of(t@);
                        let ghost t0 = t@;
                        let mut rowa = t.remove(a as usize);
                        proof {
                            assert(rowa@ == rows0[a as int]);
                            assert(crate::assoc::assoc_wf(rows0[a as int]));
                        }
                        crate::assoc::assoc_bump(&mut rowa, b, 1);
                        let ghost newrowa = rowa@;
                        t.insert(a as usize, rowa);
                        proof {
                            assert forall|i: int|
                                0 <= i < t@.len() && i != a as int implies t@[i] == t0[i] by {
                                if i < a as int {
                                    assert(t0.remove(a as int)[i] == t0[i]);
                                } else {
                                    assert(t0.remove(a as int)[i - 1] == t0[i]);
                                }
                            }
                            assert(t@[a as int]@ == newrowa);
                            assert forall|i: int|
                                0 <= i < crate::db::rows_of(t@).len() && i != a as int
                                implies #[trigger] crate::db::rows_of(t@)[i] == rows0[i] by {
                                assert(t@[i] == t0[i]);
                            }
                            lemma_tbl_wf_bump(
                                rows0,
                                crate::db::rows_of(t@),
                                a as int,
                                b,
                                fv.len() as nat,
                            );
                        }
                        let ghost rows1 = crate::db::rows_of(t@);
                        let ghost t1 = t@;
                        if a != b {
                            let mut rowb = t.remove(b as usize);
                            proof {
                                assert(rowb@ == rows1[b as int]);
                                assert(rows1[b as int] == rows0[b as int]);
                                assert(crate::assoc::assoc_wf(rows0[b as int]));
                            }
                            crate::assoc::assoc_bump(&mut rowb, a, 1);
                            let ghost newrowb = rowb@;
                            t.insert(b as usize, rowb);
                            proof {
                                assert forall|i: int|
                                    0 <= i < t@.len() && i != b as int implies t@[i] == t1[i] by {
                                    if i < b as int {
                                        assert(t1.remove(b as int)[i] == t1[i]);
                                    } else {
                                        assert(t1.remove(b as int)[i - 1] == t1[i]);
                                    }
                                }
                                assert(t@[b as int]@ == newrowb);
                                assert forall|i: int|
                                    0 <= i < crate::db::rows_of(t@).len() && i != b as int
                                    implies #[trigger] crate::db::rows_of(t@)[i] == rows1[i] by {
                                    assert(t@[i] == t1[i]);
                                }
                                lemma_tbl_wf_bump(
                                    rows1,
                                    crate::db::rows_of(t@),
                                    b as int,
                                    a,
                                    fv.len() as nat,
                                );
                            }
                        }
                        proof {
                            lemma_flush_step(
                                base,
                                rows0,
                                crate::db::rows_of(t@),
                                scr,
                                p as int,
                                q as int,
                                a,
                                b,
                                fv.len() as nat,
                            );
                        }
                        q = q + 1;
                    }
                    proof {
                        assert forall|fi: int, g: int|
                            0 <= fi < fv.len() && 0 <= g < fv.len() implies flush_cell(
                            base,
                            scr,
                            p as int,
                            scr.len() as int,
                            fi,
                            g,
                        ) == flush_cell(base, scr, p as int + 1, p as int + 1, fi, g) by {
                            if in_scr(scr, fi) && in_scr(scr, g) {
                                let ga = if fi <= g {
                                    fi
                                } else {
                                    g
                                };
                                let gb = if fi <= g {
                                    g
                                } else {
                                    fi
                                };
                                lemma_scr_pos_range(scr, ga);
                                lemma_scr_pos_range(scr, gb);
                                lemma_scr_pos_mono(scr, ga, gb);
                            }
                        }
                    }
                    p = p + 1;
                }
                scratch.clear();
                proof {
                    // Every pair of the closed group is now counted once.
                    assert forall|fi: int, g: int|
                        0 <= fi < fv.len() && 0 <= g < fv.len()
                            implies #[trigger] crate::assoc::assoc_get(
                        crate::db::rows_of(t@)[fi],
                        g as u32,
                    ) == ff_cell(post, fv, fi, g) by {
                        let f1 = fv[fi];
                        let f2 = fv[g];
                        assert(ff_count(post, f1, f2) == (if in_group_after(pre, f1)
                            && in_group_after(pre, f2) {
                            sat_add(ff_count(pre, f1, f2), 1)
                        } else {
                            ff_count(pre, f1, f2)
                        }));
                        // group membership matches scratch membership
                        assert(in_group_after(pre, f1) <==> in_scr(scr, fi)) by {
                            if in_group_after(pre, f1) {
                                let tq = choose|tq: int|
                                    0 <= tq < scr.len() && fv[scr[tq] as int] == f1;
                                crate::text::lemma_sorted_distinct(fv, scr[tq] as int, fi);
                            }
                            if in_scr(scr, fi) {
                                let tq = choose|tq: int|
                                    0 <= tq < scr.len() && scr[tq] as int == fi;
                                assert(fv[scr[tq] as int] == f1);
                            }
                        }
                        assert(in_group_after(pre, f2) <==> in_scr(scr, g)) by {
                            if in_group_after(pre, f2) {
                                let tq = choose|tq: int|
                                    0 <= tq < scr.len() && fv[scr[tq] as int] == f2;
                                crate::text::lemma_sorted_distinct(fv, scr[tq] as int, g);
                            }
                            if in_scr(scr, g) {
                                let tq = choose|tq: int|
                                    0 <= tq < scr.len() && scr[tq] as int == g;
                                assert(fv[scr[tq] as int] == f2);
                            }
                        }
                        if in_scr(scr, fi) && in_scr(scr, g) {
                            let ga = if fi <= g {
                                fi
                            } else {
                                g
                            };
                            lemma_scr_pos_range(scr, ga);
                            assert(pair_done(scr, scr.len() as int, scr.len() as int, fi, g));
                            assert(cell_get(base, fi, g) == ff_cell(pre, fv, fi, g));
                            assert(cell_get0(base, fi, g) == ff_count(pre, f1, f2));
                        }
                    }
                    // the new group is empty
                    assert forall|x: Seq<char>|
                        in_group_after(post, x) <==> exists|tq: int|
                            0 <= tq < scratch@.len() && fv[#[trigger] scratch@[tq] as int]
                                == x by {}
                }
            },
        }
        k = k + 1;
    }
    proof {
        assert(m.take(events.len() as int) =~= m);
    }
    t
}

/// One flush step: bumping `[a][b]` and, when distinct, `[b][a]` advances
/// the processed-pair frontier from `(p, q)` to `(p, q + 1)`.
proof fn lemma_flush_step(
    base: Seq<Seq<(u32, u32)>>,
    rows0: Seq<Seq<(u32, u32)>>,
    rows2: Seq<Seq<(u32, u32)>>,
    scr: Seq<u32>,
    p: int,
    q: int,
    a: u32,
    b: u32,
    bound: nat,
)
    requires
        bound <= u32::MAX as nat,
        sorted_ids(scr),
        0 <= p <= q < scr.len(),
        scr[p] == a,
        scr[q] == b,
        (a as nat) < bound,
        (b as nat) < bound,
        rows0.len() == bound,
        rows2.len() == bound,
        forall|fi: int, g: int|
            0 <= fi < bound && 0 <= g < bound ==> #[trigger] crate::assoc::assoc_get(
                rows0[fi],
                g as u32,
            ) == flush_cell(base, scr, p, q, fi, g),
        // row `a` was bumped at key `b`
        forall|k2: u32|
            #[trigger] crate::assoc::assoc_get(rows2[a as int], k2) == (if k2 == b {
                Some(sat_add(crate::assoc::assoc_get0(rows0[a as int], b), 1))
            } else {
                crate::assoc::assoc_get(rows0[a as int], k2)
            }),
        // row `b`, when distinct, was bumped at key `a`
        a != b ==> forall|k2: u32|
            #[trigger] crate::assoc::assoc_get(rows2[b as int], k2) == (if k2 == a {
                Some(sat_add(crate::assoc::assoc_get0(rows0[b as int], a), 1))
            } else {
                crate::assoc::assoc_get(rows0[b as int], k2)
            }),
        forall|i: int| 0 <= i < bound && i != a as int && i != b as int ==> #[trigger] rows2[i]
            == rows0[i],
    ensures
        forall|fi: int, g: int|
            0 <= fi < bound && 0 <= g < bound ==> #[trigger] crate::assoc::assoc_get(
                rows2[fi],
                g as u32,
            ) == flush_cell(base, scr, p, q + 1, fi, g),
{
    lemma_scr_pos(scr, p);
    lemma_scr_pos(scr, q);
    assert(a <= b) by {
        if p < q {
            assert(scr[p] < scr[q]);
        }
    }
    assert forall|fi: int, g: int|
        0 <= fi < bound && 0 <= g < bound implies #[trigger] crate::assoc::assoc_get(
        rows2[fi],
        g as u32,
    ) == flush_cell(base, scr, p, q + 1, fi, g) by {
        let ga = if fi <= g {
            fi
        } else {
            g
        };
        let gb = if fi <= g {
            g
        } else {
            fi
        };
        let this_pair = (ga == a as int) && (gb == b as int);
        if in_scr(scr, fi) && in_scr(scr, g) {
            lemma_scr_pos_range(scr, ga);
            lemma_scr_pos_range(scr, gb);
            lemma_scr_pos_mono(scr, ga, gb);
            if this_pair {
                // this step counts the pair
                assert(scr_pos(scr, ga) == p);
                assert(scr_pos(scr, gb) == q);
                assert(!pair_done(scr, p, q, fi, g));
                assert(pair_done(scr, p, q + 1, fi, g));
                if fi == a as int && g == b as int {
                    assert(crate::assoc::assoc_get(rows0[fi], g as u32) == cell_get(
                        base,
                        fi,
                        g,
                    ));
                    assert(crate::assoc::assoc_get(rows2[fi], g as u32) == Some(
                        sat_add(cell_get0(base, fi, g), 1),
                    ));
                } else {
                    // fi == b, g == a, with a != b
                    assert(fi == b as int && g == a as int && a != b);
                    assert(crate::assoc::assoc_get(rows0[fi], g as u32) == cell_get(
                        base,
                        fi,
                        g,
                    ));
                    assert(crate::assoc::assoc_get(rows2[fi], g as u32) == Some(
                        sat_add(cell_get0(base, fi, g), 1),
                    ));
                }
            } else {
                // pair status unchanged; cell untouched
                assert(pair_done(scr, p, q + 1, fi, g) == pair_done(scr, p, q, fi, g)) by {
                    if scr_pos(scr, ga) == p && scr_pos(scr, gb) == q {
                        assert(scr[p] as int == ga);
                        assert(scr[q] as int == gb);
                        assert(this_pair);
                    }
                }
                lemma_cell_untouched(rows0, rows2, a, b, fi, g, bound);
            }
        } else {
            lemma_cell_untouched(rows0, rows2, a, b, fi, g, bound);
            assert(in_scr(scr, a as int) && in_scr(scr, b as int));
            assert(!(fi == a as int && g == b as int) && !(fi == b as int && g == a as int));
        }
    }
}

/// A cell outside the two bumped positions keeps its value.
proof fn lemma_cell_untouched(
    rows0: Seq<Seq<(u32, u32)>>,
    rows2: Seq<Seq<(u32, u32)>>,
    a: u32,
    b: u32,
    fi: int,
    g: int,
    bound: nat,
)
    requires
        bound <= u32::MAX as nat,
        0 <= fi < bound,
        0 <= g < bound,
        rows0.len() == bound,
        rows2.len() == bound,
        !(fi == a as int && g == b as int),
        !(fi == b as int && g == a as int),
        forall|k2: u32|
            #[trigger] crate::assoc::assoc_get(rows2[a as int], k2) == (if k2 == b {
                Some(sat_add(crate::assoc::assoc_get0(rows0[a as int], b), 1))
            } else {
                crate::assoc::assoc_get(rows0[a as int], k2)
            }),
        a != b ==> forall|k2: u32|
            #[trigger] crate::assoc::assoc_get(rows2[b as int], k2) == (if k2 == a {
                Some(sat_add(crate::assoc::assoc_get0(rows0[b as int], a), 1))
            } else {
                crate::assoc::assoc_get(rows0[b as int], k2)
            }),
        forall|i: int| 0 <= i < bound && i != a as int && i != b as int ==> #[trigger] rows2[i]
            == rows0[i],
    ensures
        crate::assoc::assoc_get(rows2[fi], g as u32) == crate::assoc::assoc_get(
            rows0[fi],
            g as u32,
        ),
{
    if fi == a as int {
        assert(g as u32 != b) by {
            if g as u32 == b {
                assert(g == b as int);
            }
        }
    } else if fi == b as int {
        if a != b {
            assert(g as u32 != a) by {
                if g as u32 == a {
                    assert(g == a as int);
                }
            }
        }
    } else {
        assert(rows2[fi] == rows0[fi]);
    }
}

} // verus!

verus! {

/// Bumping one row at a key below the bound keeps a table well formed.
proof fn lemma_tbl_wf_bump(
    rows0: Seq<Seq<(u32, u32)>>,
    rows1: Seq<Seq<(u32, u32)>>,
    i: int,
    key: u32,
    bound: nat,
)
    requires
        crate::db::tbl_wf(rows0, bound),
        rows0.len() == rows1.len(),
        0 <= i < rows0.len(),
        (key as nat) < bound,
        crate::assoc::assoc_wf(rows1[i]),
        forall|j: int| 0 <= j < rows1.len() && j != i ==> #[trigger] rows1[j] == rows0[j],
        forall|j: int|
            0 <= j < rows1[i].len() ==> (#[trigger] rows1[i][j]).0 == key || exists|j2: int|
                0 <= j2 < rows0[i].len() && rows0[i][j2].0 == rows1[i][j].0,
    ensures
        crate::db::tbl_wf(rows1, bound),
{
    assert forall|ii: int| 0 <= ii < rows1.len() implies crate::assoc::assoc_wf(
        #[trigger] rows1[ii],
    ) by {
        if ii != i {
            assert(rows1[ii] == rows0[ii]);
        }
    }
    assert forall|ii: int, j: int|
        0 <= ii < rows1.len() && 0 <= j < rows1[ii].len() implies ((
    #[trigger] rows1[ii][j]).0 as nat) < bound by {
        if ii == i {
            if rows1[i][j].0 != key {
                let j2 = choose|j2: int|
                    0 <= j2 < rows0[i].len() && rows0[i][j2].0 == rows1[i][j].0;
                assert((rows0[i][j2].0 as nat) < bound);
            }
        } else {
            assert(rows1[ii] == rows0[ii]);
            assert((rows0[ii][j].0 as nat) < bound);
        }
    }
}

} // verus!

verus! {

/// The records of a prefix of the stream are a prefix of its records.
proof fn lemma_records_prefix(m: Seq<EventModel>, j: int)
    requires
        0 <= j <= m.len(),
    ensures
        records_of(m.take(j)).len() <= records_of(m).len(),
        forall|i: int|
            0 <= i < records_of(m.take(j)).len() ==> #[trigger] records_of(m.take(j))[i]
                == records_of(m)[i],
    decreases m.len() - j,
{
    if j == m.len() {
        assert(m.take(j) =~= m);
    } else {
        assert(m.take(j + 1).drop_last() =~= m.take(j));
        assert(m.take(j + 1).last() == m[j]);
        lemma_records_prefix(m, j + 1);
        let rj = records_of(m.take(j));
        let rj1 = records_of(m.take(j + 1));
        match m[j] {
            EventModel::Change { file, changes } => {
                assert(rj1 == rj.push(
                    RecordModel { author: author_after(m.take(j)), file, changes },
                ));
                assert(forall|i: int| 0 <= i < rj.len() ==> #[trigger] rj[i] == rj1[i]);
            },
            _ => {
                assert(rj1 == rj);
            },
        }
    }
}

/// A change event's file is one of the stream's file names.
proof fn lemma_change_file_is_name(m: Seq<EventModel>, k: int)
    requires
        0 <= k < m.len(),
    ensures
        match m[k] {
            EventModel::Change { file, changes } => is_file_name(m, file),
            _ => true,
        },
{
    match m[k] {
        EventModel::Change { file, changes } => {
            assert(m.take(k + 1).drop_last() =~= m.take(k));
            assert(m.take(k + 1).last() == m[k]);
            let rk = records_of(m.take(k));
            let rk1 = records_of(m.take(k + 1));
            assert(rk1[rk.len() as int].file == file);
            lemma_records_prefix(m, k + 1);
            assert(records_of(m)[rk.len() as int].file == file);
        },
        _ => {},
    }
}

/// Folds the event stream into a fresh database: sorted name lists holding
/// exactly the names the stream mentions, the file→author table of summed
/// change counts, and the mirrored file→file co-change table.
pub fn aggregate(events: &Vec<LogEvent>) -> (r: ColabNetDatabase)
    requires
        events@.len() < u32::MAX as nat,
    ensures
        r.wf(),
        forall|x: Seq<char>|
            views_of(r.authors@).contains(x) <==> is_author_name(models_of(events@), x),
        forall|x: Seq<char>|
            views_of(r.files@).contains(x) <==> is_file_name(models_of(events@), x),
        forall|fi: int, a: int|
            0 <= fi < r.files@.len() && 0 <= a < r.authors@.len() ==> #[trigger] r.fa_at(
                fi,
                a as u32,
            ) == fa_cell(
                views_of(r.files@),
                views_of(r.authors@),
                records_of(models_of(events@)),
                fi,
                a,
            ),
        forall|fi: int, g: int|
            0 <= fi < r.files@.len() && 0 <= g < r.files@.len() ==> #[trigger] r.ff_at(
                fi,
                g as u32,
            ) == ff_cell(models_of(events@), views_of(r.files@), fi, g),
{
    let ghost m = models_of(events@);
    let (authors, files, records) = collect(events);
    proof {
        assert forall|k: int|
            0 <= k < records@.len() implies views_of(files@).contains(
            (#[trigger] records@[k]).file@,
        ) && views_of(authors@).contains(records@[k].author@) by {
            assert(rec_models(records@)[k].file == records@[k].file@);
            assert(rec_models(records@)[k].author == records@[k].author@);
            assert(records_of(m)[k].file == records@[k].file@);
            assert(is_file_name(m, records@[k].file@));
            assert(is_author_name(m, records@[k].author@));
        }
        assert forall|k: int| 0 <= k < m.len() implies event_file_ok(
            views_of(files@),
            #[trigger] m[k],
        ) by {
            lemma_change_file_is_name(m, k);
        }
    }
    let fa = build_fa(&files, &authors, &records);
    let ff = build_ff(&files, events);
    let r = ColabNetDatabase { authors, files, files_to_authors: fa, files_to_files: ff };
    proof {
        assert(r.wf());
        assert forall|fi: int, a: int|
            0 <= fi < r.files@.len() && 0 <= a < r.authors@.len() implies #[trigger] r.fa_at(
            fi,
            a as u32,
        ) == fa_cell(
            views_of(r.files@),
            views_of(r.authors@),
            records_of(m),
            fi,
            a,
        ) by {
            assert(crate::assoc::assoc_get(crate::db::rows_of(r.files_to_authors@)[fi], a as u32)
                == fa_cell(views_of(r.files@), views_of(r.authors@), rec_models(records@), fi, a));
        }
    }
    r
}

} // verus!
