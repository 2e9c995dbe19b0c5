//! The loaded collaboration database: sorted author and file name lists
//! whose positions are the identifiers, and one association row per file id
//! for each of the two weighted graphs.
use vstd::prelude::*;

use crate::assoc::{assoc_get, assoc_wf};
use crate::text::{find_name, lemma_lex_total, sorted_names, views_of};

verus! {

/// One row of a graph table per file id.
pub open spec fn rows_of(t: Seq<Vec<(u32, u32)>>) -> Seq<Seq<(u32, u32)>> {
    Seq::new(t.len(), |i: int| t[i]@)
}

/// Every row well formed, every key below `bound`.
pub open spec fn tbl_wf(t: Seq<Seq<(u32, u32)>>, bound: nat) -> bool {
    &&& forall|i: int| 0 <= i < t.len() ==> assoc_wf(#[trigger] t[i])
    &&& forall|i: int, j: int|
        0 <= i < t.len() && 0 <= j < t[i].len() ==> ((#[trigger] t[i][j]).0 as nat) < bound
}

/// Whether `x` occurs in the name list.
pub open spec fn has_name(names: Seq<Seq<char>>, x: Seq<char>) -> bool {
    exists|i: int| 0 <= i < names.len() && names[i] == x
}

/// The position of `x` in the name list (meaningful under `has_name`).
pub open spec fn name_idx(names: Seq<Seq<char>>, x: Seq<char>) -> int {
    choose|i: int| 0 <= i < names.len() && names[i] == x
}

/// In a strictly sorted list an occurrence is unique, so `name_idx` is the
/// position of any witness.
pub proof fn lemma_name_idx_unique(names: Seq<Seq<char>>, x: Seq<char>, i: int)
    requires
        sorted_names(names),
        0 <= i < names.len(),
        names[i] == x,
    ensures
        has_name(names, x),
        name_idx(names, x) == i,
{
    assert(has_name(names, x));
    let j = name_idx(names, x);
    if j != i {
        if j < i {
            assert(lex_lt_names(names, j, i));
        } else {
            assert(lex_lt_names(names, i, j));
        }
        lemma_lex_total(x, x);
        assert(false);
    }
}

/// Helper to instantiate sortedness at two positions.
spec fn lex_lt_names(names: Seq<Seq<char>>, i: int, j: int) -> bool {
    crate::text::lex_lt(names[i], names[j])
}

/// The views of a result row list.
pub open spec fn row_views(rows: Seq<(&str, u32)>) -> Seq<(Seq<char>, u32)> {
    Seq::new(rows.len(), |j: int| (rows[j].0@, rows[j].1))
}

/// The collaboration database. The author and file lists are sorted and
/// duplicate-free; a name's position is its identifier. `files_to_authors`
/// holds, per file id, the (author id, change total) row;
/// `files_to_files` holds, per file id, the (other file id, co-change
/// count) row, mirrored so that both directions of an edge are present.
pub struct ColabNetDatabase {
    pub authors: Vec<String>,
    pub files: Vec<String>,
    pub files_to_authors: Vec<Vec<(u32, u32)>>,
    pub files_to_files: Vec<Vec<(u32, u32)>>,
}

impl ColabNetDatabase {
    /// Structural invariant: sorted distinct name lists whose lengths fit a
    /// `u32` id, one graph row per file id, rows sorted with ids in bounds.
    pub open spec fn wf(&self) -> bool {
        &&& sorted_names(views_of(self.authors@))
        &&& sorted_names(views_of(self.files@))
        &&& self.authors@.len() <= u32::MAX as nat
        &&& self.files@.len() <= u32::MAX as nat
        &&& self.files_to_authors@.len() == self.files@.len()
        &&& self.files_to_files@.len() == self.files@.len()
        &&& tbl_wf(rows_of(self.files_to_authors@), self.authors@.len() as nat)
        &&& tbl_wf(rows_of(self.files_to_files@), self.files@.len() as nat)
    }

    /// Change total recorded for author id `a` on file id `fi`.
    pub open spec fn fa_at(&self, fi: int, a: u32) -> Option<u32> {
        if 0 <= fi < self.files_to_authors@.len() {
            assoc_get(rows_of(self.files_to_authors@)[fi], a)
        } else {
            None
        }
    }

    /// Co-change count recorded between file ids `fi` and `f`.
    pub open spec fn ff_at(&self, fi: int, f: u32) -> Option<u32> {
        if 0 <= fi < self.files_to_files@.len() {
            assoc_get(rows_of(self.files_to_files@)[fi], f)
        } else {
            None
        }
    }

    /// The owners rows for file id `fi`: author names joined in, in author
    /// id order.
    pub open spec fn owners_rows(&self, fi: int) -> Seq<(Seq<char>, u32)> {
        Seq::new(
            rows_of(self.files_to_authors@)[fi].len(),
            |j: int|
                (
                    views_of(self.authors@)[rows_of(self.files_to_authors@)[fi][j].0 as int],
                    rows_of(self.files_to_authors@)[fi][j].1,
                ),
        )
    }

    /// The cousins rows for file id `fi`: file names joined in, in file id
    /// order, the persisted self-edge included.
    pub open spec fn cousins_rows(&self, fi: int) -> Seq<(Seq<char>, u32)> {
        Seq::new(
            rows_of(self.files_to_files@)[fi].len(),
            |j: int|
                (
                    views_of(self.files@)[rows_of(self.files_to_files@)[fi][j].0 as int],
                    rows_of(self.files_to_files@)[fi][j].1,
                ),
        )
    }

    /// What `authors_of_file` answers: the owners rows of the looked-up
    /// file, or nothing when the name is absent.
    pub open spec fn owners_model(&self, fname: Seq<char>) -> Option<Seq<(Seq<char>, u32)>> {
        if has_name(views_of(self.files@), fname) {
            Some(self.owners_rows(name_idx(views_of(self.files@), fname)))
        } else {
            None
        }
    }

    /// What `files_correlated` answers: the cousins rows of the looked-up
    /// file, or nothing when the name is absent or the file has no recorded
    /// co-changes.
    pub open spec fn cousins_model(&self, fname: Seq<char>) -> Option<Seq<(Seq<char>, u32)>> {
        if !has_name(views_of(self.files@), fname) {
            None
        } else {
            let rows = self.cousins_rows(name_idx(views_of(self.files@), fname));
            if rows.len() == 0 {
                None
            } else {
                Some(rows)
            }
        }
    }

    /// Id of the file with this exact name, by binary search.
    pub fn find_file(&self, fname: &str) -> (r: Option<u32>)
        requires
            self.wf(),
        ensures
            match r {
                Some(i) => has_name(views_of(self.files@), fname@) && i as int == name_idx(
                    views_of(self.files@),
                    fname@,
                ) && (i as int) < self.files@.len(),
                None => !has_name(views_of(self.files@), fname@),
            },
    {
        match find_name(&self.files, fname) {
            Some(i) => {
                proof {
                    assert(views_of(self.files@)[i as int] == self.files@[i as int]@);
                    lemma_name_idx_unique(views_of(self.files@), fname@, i as int);
                }
                Some(i as u32)
            },
            None => {
                proof {
                    if has_name(views_of(self.files@), fname@) {
                        let i = name_idx(views_of(self.files@), fname@);
                        assert(self.files@[i]@ == fname@);
                        assert(false);
                    }
                }
                None
            },
        }
    }

    /// Id of the author with this exact name, by binary search.
    pub fn find_author(&self, author: &str) -> (r: Option<u32>)
        requires
            self.wf(),
        ensures
            match r {
                Some(i) => has_name(views_of(self.authors@), author@) && i as int == name_idx(
                    views_of(self.authors@),
                    author@,
                ) && (i as int) < self.authors@.len(),
                None => !has_name(views_of(self.authors@), author@),
            },
    {
        match find_name(&self.authors, author) {
            Some(i) => {
                proof {
                    assert(views_of(self.authors@)[i as int] == self.authors@[i as int]@);
                    lemma_name_idx_unique(views_of(self.authors@), author@, i as int);
                }
                Some(i as u32)
            },
            None => {
                proof {
                    if has_name(views_of(self.authors@), author@) {
                        let i = name_idx(views_of(self.authors@), author@);
                        assert(self.authors@[i]@ == author@);
                        assert(false);
                    }
                }
                None
            },
        }
    }

    /// The author name under an id, when the id is in bounds.
    pub fn get_author(&self, idx: u32) -> (r: Option<&str>)
        ensures
            match r {
                Some(s) => (idx as int) < self.authors@.len() && s@ == self.authors@[idx as int]@,
                None => (idx as int) >= self.authors@.len(),
            },
    {
        if (idx as usize) < self.authors.len() {
            Some(self.authors[idx as usize].as_str())
        } else {
            None
        }
    }

    /// The file name under an id, when the id is in bounds.
    pub fn get_file(&self, idx: u32) -> (r: Option<&str>)
        ensures
            match r {
                Some(s) => (idx as int) < self.files@.len() && s@ == self.files@[idx as int]@,
                None => (idx as int) >= self.files@.len(),
            },
    {
        if (idx as usize) < self.files.len() {
            Some(self.files[idx as usize].as_str())
        } else {
            None
        }
    }

    /// All (author, change total) rows for a file, in author id order — or
    /// `None` when the file is not in the snapshot.
    pub fn authors_of_file<'a>(&'a self, fname: &str) -> (r: Option<Vec<(&'a str, u32)>>)
        requires
            self.wf(),
        ensures
            match r {
                Some(rows) => self.owners_model(fname@) == Some(row_views(rows@)),
                None => self.owners_model(fname@) is None,
            },
    {
        match self.find_file(fname) {
            None => None,
            Some(fid) => {
                let fi = fid as usize;
                let row = &self.files_to_authors[fi];
                let mut rows: Vec<(&'a str, u32)> = Vec::new();
                let mut j: usize = 0;
                while j < row.len()
                    invariant
                        self.wf(),
                        fi < self.files_to_authors@.len(),
                        row == &self.files_to_authors[fi as int],
                        j <= row@.len(),
                        rows@.len() == j,
                        forall|t: int|
                            0 <= t < j ==> #[trigger] rows@[t].1 == row@[t].1 && rows@[t].0@
                                == views_of(self.authors@)[row@[t].0 as int],
                    decreases row@.len() - j,
                {
                    let e = row[j];
                    proof {
                        assert(rows_of(self.files_to_authors@)[fi as int] == row@);
                        assert(rows_of(self.files_to_authors@)[fi as int][j as int] == e);
                        assert((e.0 as nat) < self.authors@.len());
                        assert(views_of(self.authors@)[e.0 as int] == self.authors@[e.0 as int]@);
                    }
                    let name = self.authors[e.0 as usize].as_str();
                    rows.push((name, e.1));
                    j = j + 1;
                }
                proof {
                    assert(rows_of(self.files_to_authors@)[fi as int] == row@);
                    assert(row_views(rows@) =~= self.owners_rows(fid as int));
                }
                Some(rows)
            },
        }
    }

    /// All (other file, co-change count) rows for a file, in file id order,
    /// the persisted self-edge included — or `None` when the file is not in
    /// the snapshot or has no recorded co-changes.
    pub fn files_correlated<'a>(&'a self, fname: &str) -> (r: Option<Vec<(&'a str, u32)>>)
        requires
            self.wf(),
        ensures
            match r {
                Some(rows) => self.cousins_model(fname@) == Some(row_views(rows@)),
                None => self.cousins_model(fname@) is None,
            },
    {
        match self.find_file(fname) {
            None => None,
            Some(fid) => {
                let fi = fid as usize;
                let row = &self.files_to_files[fi];
                if row.len() == 0 {
                    proof {
                        assert(rows_of(self.files_to_files@)[fi as int] == row@);
                        assert(self.cousins_rows(fid as int).len() == 0);
                    }
                    return None;
                }
                let mut rows: Vec<(&'a str, u32)> = Vec::new();
                let mut j: usize = 0;
                while j < row.len()
                    invariant
                        self.wf(),
                        fi < self.files_to_files@.len(),
                        row == &self.files_to_files[fi as int],
                        j <= row@.len(),
                        rows@.len() == j,
                        forall|t: int|
                            0 <= t < j ==> #[trigger] rows@[t].1 == row@[t].1 && rows@[t].0@
                                == views_of(self.files@)[row@[t].0 as int],
                    decreases row@.len() - j,
                {
                    let e = row[j];
                    proof {
                        assert(rows_of(self.files_to_files@)[fi as int] == row@);
                        assert(rows_of(self.files_to_files@)[fi as int][j as int] == e);
                        assert((e.0 as nat) < self.files@.len());
                        assert(views_of(self.files@)[e.0 as int] == self.files@[e.0 as int]@);
                    }
                    let name = self.files[e.0 as usize].as_str();
                    rows.push((name, e.1));
                    proof {
                        assert(rows@[j as int] == (name, e.1));
                        assert(rows@[j as int].0@ == views_of(self.files@)[row@[j as int].0 as int]);
                    }
                    j = j + 1;
                }
                proof {
                    assert(rows_of(self.files_to_files@)[fi as int] == row@);
                    assert(row_views(rows@) =~= self.cousins_rows(fid as int));
                }
                Some(rows)
            },
        }
    }
}

} // verus!
