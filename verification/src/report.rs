//! Report shaping: ranks query rows by weight for display, highest first
//! (a stable sort, so id order breaks ties), and computes the co-change
//! percentages of the cousins report.
use vstd::prelude::*;

use crate::db::{has_name, name_idx, rows_of, ColabNetDatabase};
use crate::text::views_of;

verus! {

/// Inserts an entry into a count-sorted row after every entry with an equal
/// or smaller count, as a stable sort would.
pub open spec fn ins_by_count(s: Seq<(u32, u32)>, e: (u32, u32)) -> Seq<(u32, u32)>
    decreases s.len(),
{
    if s.len() == 0 {
        seq![e]
    } else if s.last().1 <= e.1 {
        s.push(e)
    } else {
        ins_by_count(s.drop_last(), e).push(s.last())
    }
}

/// The stable sort of a row list by ascending count.
pub open spec fn sort_by_count(s: Seq<(u32, u32)>) -> Seq<(u32, u32)>
    decreases s.len(),
{
    if s.len() == 0 {
        Seq::empty()
    } else {
        ins_by_count(sort_by_count(s.drop_last()), s.last())
    }
}

pub open spec fn counts_sorted(s: Seq<(u32, u32)>) -> bool {
    forall|p: int, q: int| 0 <= p < q < s.len() ==> (#[trigger] s[p]).1 <= (#[trigger] s[q]).1
}

proof fn lemma_ins_by_count_props(s: Seq<(u32, u32)>, e: (u32, u32))
    requires
        counts_sorted(s),
    ensures
        ins_by_count(s, e).len() == s.len() + 1,
        counts_sorted(ins_by_count(s, e)),
        forall|i: int|
            0 <= i < ins_by_count(s, e).len() ==> #[trigger] ins_by_count(s, e)[i] == e || exists|
                j: int,
            | 0 <= j < s.len() && s[j] == ins_by_count(s, e)[i],
    decreases s.len(),
{
    let r = ins_by_count(s, e);
    if s.len() == 0 {
    } else if s.last().1 <= e.1 {
        assert forall|p: int, q: int|
            0 <= p < q < r.len() implies (#[trigger] r[p]).1 <= (#[trigger] r[q]).1 by {
            if q < s.len() {
            } else {
                if p < s.len() - 1 {
                    assert(s[p].1 <= s[s.len() - 1].1);
                }
            }
        }
        assert forall|i: int|
            0 <= i < r.len() implies #[trigger] r[i] == e || exists|j: int|
                0 <= j < s.len() && s[j] == r[i] by {
            if i < s.len() {
                assert(s[i] == r[i]);
            }
        }
    } else {
        let t = s.drop_last();
        assert(counts_sorted(t)) by {
            assert(forall|p: int, q: int|
                0 <= p < q < t.len() ==> (#[trigger] s[p]).1 <= (#[trigger] s[q]).1);
            assert forall|p: int, q: int|
                0 <= p < q < t.len() implies (#[trigger] t[p]).1 <= (#[trigger] t[q]).1 by {
                assert(t[p] == s[p]);
                assert(t[q] == s[q]);
            }
        }
        lemma_ins_by_count_props(t, e);
        let rt = ins_by_count(t, e);
        assert(r == rt.push(s.last()));
        assert forall|p: int, q: int|
            0 <= p < q < r.len() implies (#[trigger] r[p]).1 <= (#[trigger] r[q]).1 by {
            if q < rt.len() {
                assert(r[p] == rt[p]);
                assert(r[q] == rt[q]);
            } else {
                assert(r[q] == s.last());
                assert(r[p] == rt[p]);
                assert(rt[p] == e || exists|j: int| 0 <= j < t.len() && t[j] == rt[p]);
                if rt[p] != e {
                    let j = choose|j: int| 0 <= j < t.len() && t[j] == rt[p];
                    assert(s[j].1 <= s.last().1);
                }
            }
        }
        assert forall|i: int|
            0 <= i < r.len() implies #[trigger] r[i] == e || exists|j: int|
                0 <= j < s.len() && s[j] == r[i] by {
            if i < rt.len() {
                assert(r[i] == rt[i]);
                if rt[i] != e {
                    let j = choose|j: int| 0 <= j < t.len() && t[j] == rt[i];
                    assert(s[j] == r[i]);
                }
            } else {
                assert(r[i] == s[s.len() - 1]);
            }
        }
    }
}

pub proof fn lemma_sort_by_count_props(s: Seq<(u32, u32)>)
    ensures
        sort_by_count(s).len() == s.len(),
        counts_sorted(sort_by_count(s)),
        forall|i: int|
            0 <= i < sort_by_count(s).len() ==> exists|j: int|
                0 <= j < s.len() && s[j] == #[trigger] sort_by_count(s)[i],
    decreases s.len(),
{
    if s.len() > 0 {
        lemma_sort_by_count_props(s.drop_last());
        lemma_ins_by_count_props(sort_by_count(s.drop_last()), s.last());
        let r = sort_by_count(s);
        assert forall|i: int|
            0 <= i < r.len() implies exists|j: int| 0 <= j < s.len() && s[j] == #[trigger] r[i] by {
            if r[i] == s.last() {
                assert(s[s.len() - 1] == r[i]);
            } else {
                let srt = sort_by_count(s.drop_last());
                assert(r[i] == s.last() || exists|j: int| 0 <= j < srt.len() && srt[j] == r[i]);
                let j = choose|j: int| 0 <= j < srt.len() && srt[j] == r[i];
                let j2 = choose|j2: int| 0 <= j2 < s.drop_last().len() && s.drop_last()[j2] == srt[j];
                assert(s[j2] == r[i]);
            }
        }
    }
}

/// Where a stable insertion lands: the position scanned from the right past
/// every strictly larger count.
proof fn lemma_ins_at(s: Seq<(u32, u32)>, e: (u32, u32), pos: int)
    requires
        0 <= pos <= s.len(),
        forall|j: int| pos <= j < s.len() ==> (#[trigger] s[j]).1 > e.1,
        pos > 0 ==> s[pos - 1].1 <= e.1,
    ensures
        ins_by_count(s, e) == s.insert(pos, e),
    decreases s.len(),
{
    if pos == s.len() {
        if s.len() == 0 {
            assert(ins_by_count(s, e) =~= s.insert(pos, e));
        } else {
            assert(s.last().1 <= e.1);
            assert(ins_by_count(s, e) =~= s.insert(pos, e));
        }
    } else {
        assert(s[s.len() - 1].1 > e.1);
        let t = s.drop_last();
        assert forall|j: int| pos <= j < t.len() implies (#[trigger] t[j]).1 > e.1 by {
            assert(t[j] == s[j]);
        }
        if pos > 0 {
            assert(t[pos - 1] == s[pos - 1]);
        }
        lemma_ins_at(t, e, pos);
        assert(ins_by_count(s, e) == t.insert(pos, e).push(s.last()));
        assert(ins_by_count(s, e) =~= s.insert(pos, e));
    }
}

/// Sorts rows by ascending count; a stable sort, so equal counts keep their
/// id order.
pub fn sort_rows(rows: &Vec<(u32, u32)>) -> (r: Vec<(u32, u32)>)
    ensures
        r@ == sort_by_count(rows@),
{
    let mut out: Vec<(u32, u32)> = Vec::new();
    let mut k: usize = 0;
    proof {
        assert(rows@.take(0) =~= Seq::<(u32, u32)>::empty());
    }
    while k < rows.len()
        invariant
            k <= rows@.len(),
            out@ == sort_by_count(rows@.take(k as int)),
        decreases rows@.len() - k,
    {
        let e = rows[k];
        let mut pos: usize = out.len();
        while pos > 0 && out[pos - 1].1 > e.1
            invariant
                pos <= out@.len(),
                forall|j: int| pos <= j < out@.len() ==> (#[trigger] out@[j]).1 > e.1,
            decreases pos,
        {
            pos = pos - 1;
        }
        proof {
            lemma_ins_at(out@, e, pos as int);
            assert(rows@.take(k as int + 1).drop_last() =~= rows@.take(k as int));
            assert(rows@.take(k as int + 1).last() == e);
        }
        out.insert(pos, e);
        k = k + 1;
    }
    proof {
        assert(rows@.take(rows@.len() as int) =~= rows@);
    }
    out
}

/// The entries of a co-change row without the file's own self-edge.
pub open spec fn drop_self(row: Seq<(u32, u32)>, fid: u32) -> Seq<(u32, u32)>
    decreases row.len(),
{
    if row.len() == 0 {
        Seq::empty()
    } else if row.last().0 == fid {
        drop_self(row.drop_last(), fid)
    } else {
        drop_self(row.drop_last(), fid).push(row.last())
    }
}

/// Percentage of `c` against `m` in hundredths of a percent, rounded half
/// up: `round(10000 * c / m)`.
pub open spec fn pct_hundredths(c: nat, m: nat) -> nat {
    if m == 0 {
        0
    } else {
        (20000 * c / m + 1) / 2
    }
}

/// Computes the display percentage, in hundredths of a percent.
pub fn pct_of(c: u32, m: u32) -> (r: u32)
    requires
        c <= m,
    ensures
        r == pct_hundredths(c as nat, m as nat),
        r <= 10000,
{
    if m == 0 {
        return 0;
    }
    let num: u64 = 20000u64 * (c as u64);
    let q: u64 = num / (m as u64);
    proof {
        assert(q <= 20000) by (nonlinear_arith)
            requires
                q == (20000 * (c as int)) / (m as int),
                c <= m,
                m > 0,
        ;
    }
    let r: u64 = (q + 1) / 2;
    r as u32
}

} // verus!

verus! {

/// Every entry of the self-edge-free row is an entry of the row, with a
/// partner id other than the file's own.
proof fn lemma_drop_self_elements(row: Seq<(u32, u32)>, fid: u32)
    ensures
        forall|i: int|
            0 <= i < drop_self(row, fid).len() ==> (exists|j: int|
                0 <= j < row.len() && row[j] == #[trigger] drop_self(row, fid)[i]) && drop_self(
                row,
                fid,
            )[i].0 != fid,
    decreases row.len(),
{
    if row.len() > 0 {
        lemma_drop_self_elements(row.drop_last(), fid);
        let r = drop_self(row, fid);
        let t = row.drop_last();
        assert forall|i: int|
            0 <= i < r.len() implies (exists|j: int| 0 <= j < row.len() && row[j]
            == #[trigger] r[i]) && r[i].0 != fid by {
            if row.last().0 == fid {
                let j = choose|j: int| 0 <= j < t.len() && t[j] == drop_self(t, fid)[i];
                assert(row[j] == r[i]);
            } else {
                if i < drop_self(t, fid).len() {
                    assert(r[i] == drop_self(t, fid)[i]);
                    let j = choose|j: int| 0 <= j < t.len() && t[j] == drop_self(t, fid)[i];
                    assert(row[j] == r[i]);
                } else {
                    assert(r[i] == row[row.len() - 1]);
                }
            }
        }
    }
}

/// The views of a three-column result row list.
pub open spec fn rows3_views(rows: Seq<(&str, u32, u32)>) -> Seq<(Seq<char>, u32, u32)> {
    Seq::new(rows.len(), |j: int| (rows[j].0@, rows[j].1, rows[j].2))
}

/// What `owners_ranked` answers for a found file: the owners rows sorted by
/// ascending change count and then reversed — highest first, ties broken by
/// descending author id.
pub open spec fn owners_display_model(db: &ColabNetDatabase, fi: int) -> Seq<(Seq<char>, u32)> {
    let sorted = sort_by_count(rows_of(db.files_to_authors@)[fi]);
    Seq::new(
        sorted.len(),
        |i: int|
            (
                views_of(db.authors@)[sorted[sorted.len() - 1 - i].0 as int],
                sorted[sorted.len() - 1 - i].1,
            ),
    )
}

pub open spec fn owners_ranked_model(db: &ColabNetDatabase, fname: Seq<char>) -> Option<
    Seq<(Seq<char>, u32)>,
> {
    if has_name(views_of(db.files@), fname) {
        Some(owners_display_model(db, name_idx(views_of(db.files@), fname)))
    } else {
        None
    }
}

/// What `cousins_report` answers for a found file with co-changes: the
/// maximum co-change count among the other files, and their rows highest
/// first with percentages in hundredths against that maximum. The
/// persisted self-edge is left out of the report.
pub open spec fn cousins_report_model(db: &ColabNetDatabase, fname: Seq<char>) -> Option<
    (u32, Seq<(Seq<char>, u32, u32)>),
> {
    if !has_name(views_of(db.files@), fname) {
        None
    } else {
        let fi = name_idx(views_of(db.files@), fname);
        let ents = drop_self(rows_of(db.files_to_files@)[fi], fi as u32);
        if ents.len() == 0 {
            None
        } else {
            let sorted = sort_by_count(ents);
            let m = sorted.last().1;
            Some(
                (
                    m,
                    Seq::new(
                        sorted.len(),
                        |i: int|
                            (
                                views_of(db.files@)[sorted[sorted.len() - 1 - i].0 as int],
                                sorted[sorted.len() - 1 - i].1,
                                pct_hundredths(
                                    sorted[sorted.len() - 1 - i].1 as nat,
                                    m as nat,
                                ) as u32,
                            ),
                    ),
                ),
            )
        }
    }
}

impl ColabNetDatabase {
    /// The owners report rows for a file: every recorded author with their
    /// change total, highest total first.
    pub fn owners_ranked<'a>(&'a self, fname: &str) -> (r: Option<Vec<(&'a str, u32)>>)
        requires
            self.wf(),
        ensures
            match r {
                Some(rows) => owners_ranked_model(self, fname@) == Some(
                    crate::db::row_views(rows@),
                ),
                None => owners_ranked_model(self, fname@) is None,
            },
    {
        match self.find_file(fname) {
            None => None,
            Some(fid) => {
                let fi = fid as usize;
                let row = &self.files_to_authors[fi];
                let sorted = sort_rows(row);
                proof {
                    lemma_sort_by_count_props(row@);
                    assert(rows_of(self.files_to_authors@)[fi as int] == row@);
                }
                let mut out: Vec<(&'a str, u32)> = Vec::new();
                let n = sorted.len();
                let mut i: usize = 0;
                while i < n
                    invariant
                        self.wf(),
                        n == sorted@.len(),
                        i <= n,
                        fi < self.files_to_authors@.len(),
                        sorted@ == sort_by_count(rows_of(self.files_to_authors@)[fi as int]),
                        forall|t: int|
                            0 <= t < sorted@.len() ==> exists|j: int|
                                0 <= j < rows_of(self.files_to_authors@)[fi as int].len()
                                    && rows_of(self.files_to_authors@)[fi as int][j]
                                    == #[trigger] sorted@[t],
                        out@.len() == i,
                        forall|t: int|
                            0 <= t < i ==> #[trigger] out@[t].1 == sorted@[n - 1 - t].1
                                && out@[t].0@ == views_of(self.authors@)[sorted@[n - 1 - t].0
                                as int],
                    decreases n - i,
                {
                    let e = sorted[n - 1 - i];
                    proof {
                        let j = choose|j: int|
                            0 <= j < rows_of(self.files_to_authors@)[fi as int].len() && rows_of(
                                self.files_to_authors@,
                            )[fi as int][j] == sorted@[n - 1 - i];
                        assert((rows_of(self.files_to_authors@)[fi as int][j].0 as nat)
                            < self.authors@.len());
                        assert(views_of(self.authors@)[e.0 as int] == self.authors@[e.0 as int]@);
                    }
                    let name = self.authors[e.0 as usize].as_str();
                    out.push((name, e.1));
                    i = i + 1;
                }
                proof {
                    assert(crate::db::row_views(out@) =~= owners_display_model(
                        self,
                        fid as int,
                    ));
                }
                Some(out)
            },
        }
    }

    /// The cousins report for a file: the maximum co-change count among the
    /// other files it changes with, and their rows highest first, each with
    /// its percentage of that maximum in hundredths. `None` when the file
    /// is absent or no other file shares a commit with it.
    pub fn cousins_report<'a>(&'a self, fname: &str) -> (r: Option<
        (u32, Vec<(&'a str, u32, u32)>),
    >)
        requires
            self.wf(),
        ensures
            match r {
                Some(rep) => cousins_report_model(self, fname@) == Some(
                    (rep.0, rows3_views(rep.1@)),
                ),
                None => cousins_report_model(self, fname@) is None,
            },
    {
        match self.find_file(fname) {
            None => None,
            Some(fid) => {
                let fi = fid as usize;
                let row = &self.files_to_files[fi];
                let mut ents: Vec<(u32, u32)> = Vec::new();
                let mut j: usize = 0;
                proof {
                    assert(rows_of(self.files_to_files@)[fi as int] == row@);
                    assert(row@.take(0) =~= Seq::<(u32, u32)>::empty());
                    assert(ents@ =~= drop_self(row@.take(0), fid));
                }
                while j < row.len()
                    invariant
                        j <= row@.len(),
                        row == &self.files_to_files[fi as int],
                        fi < self.files_to_files@.len(),
                        self.wf(),
                        ents@ == drop_self(row@.take(j as int), fid),
                    decreases row@.len() - j,
                {
                    let e = row[j];
                    proof {
                        assert(row@.take(j as int + 1).drop_last() =~= row@.take(j as int));
                        assert(row@.take(j as int + 1).last() == e);
                    }
                    if e.0 != fid {
                        ents.push(e);
                    }
                    j = j + 1;
                }
                proof {
                    assert(row@.take(row@.len() as int) =~= row@);
                }
                if ents.len() == 0 {
                    return None;
                }
                let sorted = sort_rows(&ents);
                proof {
                    lemma_sort_by_count_props(ents@);
                    lemma_drop_self_elements(row@, fid);
                }
                let n = sorted.len();
                let m = sorted[n - 1].1;
                proof {
                    assert(m == sort_by_count(ents@).last().1);
                }
                let mut out: Vec<(&'a str, u32, u32)> = Vec::new();
                let mut i: usize = 0;
                while i < n
                    invariant
                        self.wf(),
                        n == sorted@.len(),
                        n >= 1,
                        i <= n,
                        fi < self.files_to_files@.len(),
                        ents@ == drop_self(rows_of(self.files_to_files@)[fi as int], fid),
                        sorted@ == sort_by_count(ents@),
                        counts_sorted(sorted@),
                        m == sorted@[n - 1].1,
                        forall|t: int|
                            0 <= t < sorted@.len() ==> exists|j2: int|
                                0 <= j2 < ents@.len() && ents@[j2] == #[trigger] sorted@[t],
                        forall|t: int|
                            0 <= t < ents@.len() ==> (exists|j2: int|
                                0 <= j2 < rows_of(self.files_to_files@)[fi as int].len()
                                    && rows_of(self.files_to_files@)[fi as int][j2]
                                    == #[trigger] ents@[t]) && ents@[t].0 != fid,
                        out@.len() == i,
                        forall|t: int|
                            0 <= t < i ==> #[trigger] out@[t].1 == sorted@[n - 1 - t].1
                                && out@[t].0@ == views_of(self.files@)[sorted@[n - 1 - t].0
                                as int] && out@[t].2 == pct_hundredths(
                                sorted@[n - 1 - t].1 as nat,
                                m as nat,
                            ),
                    decreases n - i,
                {
                    let e = sorted[n - 1 - i];
                    proof {
                        let j2 = choose|j2: int|
                            0 <= j2 < ents@.len() && ents@[j2] == sorted@[n - 1 - i];
                        let j3 = choose|j3: int|
                            0 <= j3 < rows_of(self.files_to_files@)[fi as int].len() && rows_of(
                                self.files_to_files@,
                            )[fi as int][j3] == ents@[j2];
                        assert((rows_of(self.files_to_files@)[fi as int][j3].0 as nat)
                            < self.files@.len());
                        assert(views_of(self.files@)[e.0 as int] == self.files@[e.0 as int]@);
                        assert(e.1 <= m);
                    }
                    let name = self.files[e.0 as usize].as_str();
                    let p = pct_of(e.1, m);
                    out.push((name, e.1, p));
                    i = i + 1;
                }
                proof {
                    assert(rows3_views(out@) =~= cousins_report_model(self, fname@)->Some_0.1);
                }
                Some((m, out))
            },
        }
    }
}

} // verus!
