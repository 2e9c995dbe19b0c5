//! Snapshot codec: the durable artifact is line-oriented text in four
//! sections separated by single blank lines — author names, file names,
//! `file-id author-id changes` edges, and upper-triangular
//! `file-id file-id count` edges. Writing renders a database; reading folds
//! the lines back into one, skipping malformed records and counting them.
use vstd::prelude::*;

use crate::assoc::{assoc_get, assoc_wf};
use crate::db::{rows_of, tbl_wf, ColabNetDatabase};
use crate::text::{
    lex_lt, lemma_lex_trans, lines_of, parse_u32_spec, parse_u32_str, sorted_names, split_lines,
    split_ws, str_cmp, tokens_of, trim_exec, trim_of, views_of,
};

verus! {

/// The reader's state after some lines: the section counter, whether a stop
/// was hit, the name lists, the two edge tables as maps over id pairs, and
/// how many lines were skipped as malformed.
pub struct LoadState {
    pub mode: nat,
    pub stopped: bool,
    pub authors: Seq<Seq<char>>,
    pub files: Seq<Seq<char>>,
    pub fa: Map<(int, int), u32>,
    pub ff: Map<(int, int), u32>,
    pub skipped: nat,
}

pub open spec fn load_init() -> LoadState {
    LoadState {
        mode: 0,
        stopped: false,
        authors: Seq::empty(),
        files: Seq::empty(),
        fa: Map::empty(),
        ff: Map::empty(),
        skipped: 0,
    }
}

/// A name line is accepted while the list stays strictly ascending and its
/// length still fits a `u32` id; anything else is skipped and counted.
pub open spec fn name_ok(names: Seq<Seq<char>>, nm: Seq<char>) -> bool {
    names.len() < u32::MAX as nat && (names.len() == 0 || lex_lt(names.last(), nm))
}

/// What one line does to the reader's state:
/// - after a stop, nothing;
/// - a blank line advances the section counter;
/// - in the name sections, the trimmed line joins its list when `name_ok`;
/// - in the edge sections, a line is used when it has enough
///   whitespace-separated tokens (at least three, exactly three for
///   file-file edges), the first three parse as `u32`, and the ids are in
///   range; a file-file edge is stored mirrored;
/// - a file-file line with ingestion disabled, or any line after the last
///   section, stops the read.
pub open spec fn load_step(st: LoadState, line: Seq<char>, load_ff: bool) -> LoadState {
    if st.stopped {
        st
    } else if line.len() == 0 {
        LoadState { mode: st.mode + 1, ..st }
    } else if st.mode == 0 {
        let nm = trim_of(line);
        if name_ok(st.authors, nm) {
            LoadState { authors: st.authors.push(nm), ..st }
        } else {
            LoadState { skipped: st.skipped + 1, ..st }
        }
    } else if st.mode == 1 {
        let nm = trim_of(line);
        if name_ok(st.files, nm) {
            LoadState { files: st.files.push(nm), ..st }
        } else {
            LoadState { skipped: st.skipped + 1, ..st }
        }
    } else if st.mode == 2 {
        let toks = tokens_of(line);
        if toks.len() >= 3 && parse_u32_spec(toks[0]) is Some && parse_u32_spec(toks[1]) is Some
            && parse_u32_spec(toks[2]) is Some && (parse_u32_spec(toks[0])->Some_0 as nat)
            < st.files.len() && (parse_u32_spec(toks[1])->Some_0 as nat) < st.authors.len() {
            let f = parse_u32_spec(toks[0])->Some_0;
            let a = parse_u32_spec(toks[1])->Some_0;
            let c = parse_u32_spec(toks[2])->Some_0;
            LoadState { fa: st.fa.insert((f as int, a as int), c), ..st }
        } else {
            LoadState { skipped: st.skipped + 1, ..st }
        }
    } else if st.mode == 3 {
        if !load_ff {
            LoadState { stopped: true, ..st }
        } else {
            let toks = tokens_of(line);
            if toks.len() == 3 && parse_u32_spec(toks[0]) is Some && parse_u32_spec(toks[1])
                is Some && parse_u32_spec(toks[2]) is Some && (parse_u32_spec(toks[0])->Some_0
                as nat) < st.files.len() && (parse_u32_spec(toks[1])->Some_0 as nat)
                < st.files.len() {
                let f1 = parse_u32_spec(toks[0])->Some_0;
                let f2 = parse_u32_spec(toks[1])->Some_0;
                let c = parse_u32_spec(toks[2])->Some_0;
                LoadState {
                    ff: st.ff.insert((f1 as int, f2 as int), c).insert((f2 as int, f1 as int), c),
                    ..st
                }
            } else {
                LoadState { skipped: st.skipped + 1, ..st }
            }
        }
    } else {
        LoadState { stopped: true, ..st }
    }
}

/// The reader's state after all the lines, from the initial state.
pub open spec fn load_fold(lines: Seq<Seq<char>>, load_ff: bool) -> LoadState
    decreases lines.len(),
{
    if lines.len() == 0 {
        load_init()
    } else {
        load_step(load_fold(lines.drop_last(), load_ff), lines.last(), load_ff)
    }
}

/// Map lookup as an optional value.
pub open spec fn mget(m: Map<(int, int), u32>, fi: int, g: int) -> Option<u32> {
    if m.contains_key((fi, g)) {
        Some(m[(fi, g)])
    } else {
        None
    }
}

/// Once stopped, further lines change nothing.
pub proof fn lemma_load_fold_frozen(lines: Seq<Seq<char>>, load_ff: bool, j: int)
    requires
        0 <= j <= lines.len(),
        load_fold(lines.take(j), load_ff).stopped,
    ensures
        load_fold(lines, load_ff) == load_fold(lines.take(j), load_ff),
    decreases lines.len() - j,
{
    if j == lines.len() {
        assert(lines.take(j) =~= lines);
    } else {
        assert(lines.take(j + 1).drop_last() =~= lines.take(j));
        assert(lines.take(j + 1).last() == lines[j]);
        assert(load_fold(lines.take(j + 1), load_ff) == load_fold(lines.take(j), load_ff));
        lemma_load_fold_frozen(lines, load_ff, j + 1);
    }
}

/// Builds the given number of empty table rows.
fn make_rows(n: usize) -> (t: Vec<Vec<(u32, u32)>>)
    ensures
        t@.len() == n,
        forall|i: int| 0 <= i < t@.len() ==> (#[trigger] t@[i])@.len() == 0,
{
    let mut t: Vec<Vec<(u32, u32)>> = Vec::new();
    while t.len() < n
        invariant
            t@.len() <= n,
            forall|i: int| 0 <= i < t@.len() ==> (#[trigger] t@[i])@.len() == 0,
        decreases n - t@.len(),
    {
        t.push(Vec::new());
    }
    t
}

} // verus!

verus! {

/// Table cell read, `None` outside the table.
pub open spec fn tget(rows: Seq<Seq<(u32, u32)>>, fi: int, a: u32) -> Option<u32> {
    if 0 <= fi < rows.len() {
        assoc_get(rows[fi], a)
    } else {
        None
    }
}

/// The rows hold exactly the map's entries.
pub open spec fn tbl_matches(rows: Seq<Seq<(u32, u32)>>, m: Map<(int, int), u32>) -> bool {
    forall|fi: int, a: u32| #[trigger] tget(rows, fi, a) == mget(m, fi, a as int)
}

/// Every key pair lies below the two bounds.
pub open spec fn keys_bounded(m: Map<(int, int), u32>, fb: nat, ab: nat) -> bool {
    forall|k: (int, int)| #[trigger] m.contains_key(k) ==> 0 <= k.0 < fb && 0 <= k.1 < ab
}

/// An empty table beside a bounded map that matches it means the map is
/// entry-free on every asked pair.
proof fn lemma_empty_matches(m: Map<(int, int), u32>, fb: nat, ab: nat)
    requires
        tbl_matches(Seq::<Seq<(u32, u32)>>::empty(), m),
        keys_bounded(m, fb, ab),
        ab <= u32::MAX as nat,
    ensures
        forall|fi: int, a: int| mget(m, fi, a) is None,
{
    assert forall|fi: int, a: int| mget(m, fi, a) is None by {
        if m.contains_key((fi, a)) {
            assert(0 <= a < ab);
            assert(a == (a as u32) as int);
            assert(tget(Seq::<Seq<(u32, u32)>>::empty(), fi, a as u32) == mget(m, fi, a));
        }
    }
}

/// Reads a snapshot from its lines. Returns the loaded database and how
/// many lines were skipped as malformed (wrong token count, unparsable
/// number, id out of range, or a name line breaking the sorted order).
/// With `load_ff` false the file-file section is not ingested: reading
/// stops at its first line.
#[verifier::rlimit(100)]
pub fn load_snapshot_lines(lines: &Vec<String>, load_ff: bool) -> (r: (ColabNetDatabase, usize))
    ensures
        ({
            let st = load_fold(views_of(lines@), load_ff);
            &&& r.0.wf()
            &&& views_of(r.0.authors@) == st.authors
            &&& views_of(r.0.files@) == st.files
            &&& r.1 == st.skipped
            &&& forall|fi: int, a: u32| #[trigger] r.0.fa_at(fi, a) == mget(st.fa, fi, a as int)
            &&& forall|fi: int, g: u32| #[trigger] r.0.ff_at(fi, g) == mget(st.ff, fi, g as int)
        }),
{
    let ghost lv = views_of(lines@);
    let mut authors: Vec<String> = Vec::new();
    let mut files: Vec<String> = Vec::new();
    let mut fa: Vec<Vec<(u32, u32)>> = Vec::new();
    let mut ff: Vec<Vec<(u32, u32)>> = Vec::new();
    let mut mode: usize = 0;
    let mut skipped: usize = 0;
    let mut stopped: bool = false;
    let mut li: usize = 0;
    proof {
        assert(lv.take(0) =~= Seq::<Seq<char>>::empty());
        assert(views_of(authors@).len() == 0);
        assert(views_of(files@).len() == 0);
        assert(views_of(authors@) =~= load_fold(lv.take(0), load_ff).authors);
        assert(views_of(files@) =~= load_fold(lv.take(0), load_ff).files);
        assert forall|fi: int, a: u32|
            #[trigger] tget(rows_of(fa@), fi, a) == mget(
            load_fold(lv.take(0), load_ff).fa,
            fi,
            a as int,
        ) by {}
        assert forall|fi: int, g: u32|
            #[trigger] tget(rows_of(ff@), fi, g) == mget(
            load_fold(lv.take(0), load_ff).ff,
            fi,
            g as int,
        ) by {}
    }
    while li < lines.len() && !stopped
        invariant
            li <= lines.len(),
            lv == views_of(lines@),
            lv.len() == lines@.len(),
            mode <= li,
            skipped <= li,
            stopped == load_fold(lv.take(li as int), load_ff).stopped,
            mode as nat == load_fold(lv.take(li as int), load_ff).mode,
            views_of(authors@) == load_fold(lv.take(li as int), load_ff).authors,
            views_of(files@) == load_fold(lv.take(li as int), load_ff).files,
            skipped as nat == load_fold(lv.take(li as int), load_ff).skipped,
            sorted_names(views_of(authors@)),
            sorted_names(views_of(files@)),
            authors@.len() <= u32::MAX as nat,
            files@.len() <= u32::MAX as nat,
            mode >= 2 ==> fa@.len() == files@.len(),
            mode < 2 ==> fa@.len() == 0,
            mode >= 3 ==> ff@.len() == files@.len(),
            mode < 3 ==> ff@.len() == 0,
            tbl_wf(rows_of(fa@), authors@.len() as nat),
            tbl_wf(rows_of(ff@), files@.len() as nat),
            tbl_matches(rows_of(fa@), load_fold(lv.take(li as int), load_ff).fa),
            tbl_matches(rows_of(ff@), load_fold(lv.take(li as int), load_ff).ff),
            keys_bounded(
                load_fold(lv.take(li as int), load_ff).fa,
                files@.len() as nat,
                authors@.len() as nat,
            ),
            keys_bounded(
                load_fold(lv.take(li as int), load_ff).ff,
                files@.len() as nat,
                files@.len() as nat,
            ),
        decreases lines@.len() - li,
    {
        let ghost stpre = load_fold(lv.take(li as int), load_ff);
        let ghost stpost = load_fold(lv.take(li as int + 1), load_ff);
        proof {
            assert(lv.take(li as int + 1).drop_last() =~= lv.take(li as int));
            assert(lv.take(li as int + 1).last() == lv[li as int]);
            assert(stpost == load_step(stpre, lv[li as int], load_ff));
        }
        let line = &lines[li];
        proof {
            assert(line@ == lv[li as int]);
        }
        let n = line.as_str().unicode_len();
        if n == 0 {
            mode = mode + 1;
            if mode == 2 {
                proof {
                    assert(rows_of(fa@) =~= Seq::<Seq<(u32, u32)>>::empty());
                    lemma_empty_matches(stpre.fa, files@.len() as nat, authors@.len() as nat);
                }
                fa = make_rows(files.len());
                proof {
                    assert forall|fi: int, a: u32|
                        #[trigger] tget(rows_of(fa@), fi, a) == mget(stpost.fa, fi, a as int) by {
                        if 0 <= fi < rows_of(fa@).len() {
                            assert(rows_of(fa@)[fi] =~= Seq::<(u32, u32)>::empty());
                        }
                    }
                }
            }
            if mode == 3 {
                proof {
                    assert(rows_of(ff@) =~= Seq::<Seq<(u32, u32)>>::empty());
                    lemma_empty_matches(stpre.ff, files@.len() as nat, files@.len() as nat);
                }
                ff = make_rows(files.len());
                proof {
                    assert forall|fi: int, g: u32|
                        #[trigger] tget(rows_of(ff@), fi, g) == mget(stpost.ff, fi, g as int) by {
                        if 0 <= fi < rows_of(ff@).len() {
                            assert(rows_of(ff@)[fi] =~= Seq::<(u32, u32)>::empty());
                        }
                    }
                }
            }
        } else if mode == 0 || mode == 1 {
            let nm = trim_exec(line.as_str());
            let target_len = if mode == 0 {
                authors.len()
            } else {
                files.len()
            };
            let mut ok = target_len < (u32::MAX as usize);
            if ok && target_len > 0 {
                let last = if mode == 0 {
                    authors[target_len - 1].as_str()
                } else {
                    files[target_len - 1].as_str()
                };
                ok = str_cmp(last, nm) == -1;
            }
            if ok {
                let owned = nm.to_owned();
                if mode == 0 {
                    let ghost ov = views_of(authors@);
                    authors.push(owned);
                    proof {
                        assert(views_of(authors@) =~= ov.push(nm@));
                        assert(name_ok(stpre.authors, trim_of(lv[li as int])));
                        assert forall|i: int, j: int|
                            0 <= i < j < views_of(authors@).len() implies lex_lt(
                            views_of(authors@)[i],
                            views_of(authors@)[j],
                        ) by {
                            if j < ov.len() {
                                assert(lex_lt(ov[i], ov[j]));
                            } else if i < ov.len() - 1 {
                                assert(lex_lt(ov[i], ov[ov.len() - 1]));
                                lemma_lex_trans(ov[i], ov[ov.len() - 1], nm@);
                            }
                        }
                    }
                } else {
                    let ghost ov = views_of(files@);
                    files.push(owned);
                    proof {
                        assert(views_of(files@) =~= ov.push(nm@));
                        assert(name_ok(stpre.files, trim_of(lv[li as int])));
                        assert forall|i: int, j: int|
                            0 <= i < j < views_of(files@).len() implies lex_lt(
                            views_of(files@)[i],
                            views_of(files@)[j],
                        ) by {
                            if j < ov.len() {
                                assert(lex_lt(ov[i], ov[j]));
                            } else if i < ov.len() - 1 {
                                assert(lex_lt(ov[i], ov[ov.len() - 1]));
                                lemma_lex_trans(ov[i], ov[ov.len() - 1], nm@);
                            }
                        }
                    }
                }
            } else {
                skipped = skipped + 1;
                proof {
                    if mode == 0 {
                        assert(!name_ok(stpre.authors, trim_of(lv[li as int])));
                    } else {
                        assert(!name_ok(stpre.files, trim_of(lv[li as int])));
                    }
                }
            }
        } else if mode == 2 {
            let toks = split_ws(line.as_str());
            let mut used = false;
            if toks.len() >= 3 {
                proof {
                    assert(views_of(toks@)[0] == toks@[0]@);
                    assert(views_of(toks@)[1] == toks@[1]@);
                    assert(views_of(toks@)[2] == toks@[2]@);
                }
                let p0 = parse_u32_str(toks[0].as_str());
                let p1 = parse_u32_str(toks[1].as_str());
                let p2 = parse_u32_str(toks[2].as_str());
                if let (Some(f), Some(a), Some(c)) = (p0, p1, p2) {
                    if (f as usize) < files.len() && (a as usize) < authors.len() {
                        used = true;
                        let ghost oldrows = rows_of(fa@);
                        let ghost oldt = fa@;
                        let mut row = fa.remove(f as usize);
                        proof {
                            assert(row@ == oldrows[f as int]);
                            assert(assoc_wf(oldrows[f as int]));
                        }
                        crate::assoc::assoc_set(&mut row, a, c);
                        let ghost newrow = row@;
                        fa.insert(f as usize, row);
                        proof {
                            assert forall|i: int|
                                0 <= i < fa@.len() && i != f as int implies #[trigger] rows_of(
                                fa@,
                            )[i] == oldrows[i] by {
                                if i < f as int {
                                    assert(oldt.remove(f as int)[i] == oldt[i]);
                                } else {
                                    assert(oldt.remove(f as int)[i - 1] == oldt[i]);
                                }
                                assert(fa@[i] == oldt[i]);
                            }
                            assert(rows_of(fa@)[f as int] == newrow);
                            assert(tbl_wf(rows_of(fa@), authors@.len() as nat)) by {
                                assert forall|j: int|
                                    0 <= j < newrow.len() implies ((#[trigger] newrow[j]).0
                                    as nat) < authors@.len() by {
                                    if newrow[j].0 != a {
                                        let fr = oldrows[f as int];
                                        let j2 = choose|j2: int|
                                            0 <= j2 < fr.len() && fr[j2].0 == newrow[j].0;
                                        assert((oldrows[f as int][j2].0 as nat)
                                            < authors@.len());
                                    }
                                }
                                assert forall|i: int|
                                    0 <= i < rows_of(fa@).len() implies assoc_wf(
                                    #[trigger] rows_of(fa@)[i],
                                ) by {
                                    if i != f as int {
                                        assert(rows_of(fa@)[i] == oldrows[i]);
                                    }
                                }
                                assert forall|i: int, j: int|
                                    0 <= i < rows_of(fa@).len() && 0 <= j < rows_of(fa@)[i].len()
                                    implies ((#[trigger] rows_of(fa@)[i][j]).0 as nat)
                                    < authors@.len() by {
                                    if i != f as int {
                                        assert(rows_of(fa@)[i] == oldrows[i]);
                                        assert((oldrows[i][j].0 as nat) < authors@.len());
                                    }
                                }
                            }
                            assert forall|fi: int, a2: u32|
                                #[trigger] tget(rows_of(fa@), fi, a2) == mget(
                                stpost.fa,
                                fi,
                                a2 as int,
                            ) by {
                                assert(stpost.fa == stpre.fa.insert((f as int, a as int), c));
                                assert(tget(oldrows, fi, a2) == mget(stpre.fa, fi, a2 as int));
                                if fi == f as int && a2 == a {
                                    assert(assoc_get(newrow, a2) == Some(c));
                                    assert(tget(rows_of(fa@), fi, a2) == Some(c));
                                    assert(mget(stpost.fa, fi, a2 as int) == Some(c));
                                } else {
                                    assert((fi, a2 as int) != (f as int, a as int));
                                    assert(mget(stpost.fa, fi, a2 as int) == mget(
                                        stpre.fa,
                                        fi,
                                        a2 as int,
                                    ));
                                    if fi == f as int {
                                        assert(a2 != a);
                                        assert(assoc_get(newrow, a2) == assoc_get(
                                            oldrows[fi],
                                            a2,
                                        ));
                                        assert(tget(rows_of(fa@), fi, a2) == tget(
                                            oldrows,
                                            fi,
                                            a2,
                                        ));
                                    } else {
                                        if 0 <= fi < oldrows.len() {
                                            assert(rows_of(fa@)[fi] == oldrows[fi]);
                                        }
                                        assert(tget(rows_of(fa@), fi, a2) == tget(
                                            oldrows,
                                            fi,
                                            a2,
                                        ));
                                    }
                                }
                            }
                        }
                    }
                }
            }
            if !used {
                skipped = skipped + 1;
            }
        } else if mode == 3 {
            if !load_ff {
                stopped = true;
            } else {
                let toks = split_ws(line.as_str());
                let mut used = false;
                if toks.len() == 3 {
                    proof {
                        assert(views_of(toks@)[0] == toks@[0]@);
                        assert(views_of(toks@)[1] == toks@[1]@);
                        assert(views_of(toks@)[2] == toks@[2]@);
                    }
                    let p0 = parse_u32_str(toks[0].as_str());
                    let p1 = parse_u32_str(toks[1].as_str());
                    let p2 = parse_u32_str(toks[2].as_str());
                    if let (Some(f1), Some(f2), Some(c)) = (p0, p1, p2) {
                        if (f1 as usize) < files.len() && (f2 as usize) < files.len() {
                            used = true;
                            let ghost rows0 = rows_of(ff@);
                            let ghost t0 = ff@;
                            let mut row = ff.remove(f1 as usize);
                            proof {
                                assert(row@ == rows0[f1 as int]);
                                assert(assoc_wf(rows0[f1 as int]));
                            }
                            crate::assoc::assoc_set(&mut row, f2, c);
                            let ghost newrow1 = row@;
                            ff.insert(f1 as usize, row);
                            proof {
                                assert forall|i: int|
                                    0 <= i < ff@.len() && i != f1 as int implies #[trigger] rows_of(
                                    ff@,
                                )[i] == rows0[i] by {
                                    if i < f1 as int {
                                        assert(t0.remove(f1 as int)[i] == t0[i]);
                                    } else {
                                        assert(t0.remove(f1 as int)[i - 1] == t0[i]);
                                    }
                                    assert(ff@[i] == t0[i]);
                                }
                                assert(rows_of(ff@)[f1 as int] == newrow1);
                            }
                            let ghost rows1 = rows_of(ff@);
                            let ghost t1 = ff@;
                            if f1 != f2 {
                                let mut row2 = ff.remove(f2 as usize);
                                proof {
                                    assert(row2@ == rows1[f2 as int]);
                                    assert(rows1[f2 as int] == rows0[f2 as int]);
                                    assert(assoc_wf(rows0[f2 as int]));
                                }
                                crate::assoc::assoc_set(&mut row2, f1, c);
                                let ghost newrow2 = row2@;
                                ff.insert(f2 as usize, row2);
                                proof {
                                    assert forall|i: int|
                                        0 <= i < ff@.len() && i != f2 as int implies #[trigger] rows_of(
                                        ff@,
                                    )[i] == rows1[i] by {
                                        if i < f2 as int {
                                            assert(t1.remove(f2 as int)[i] == t1[i]);
                                        } else {
                                            assert(t1.remove(f2 as int)[i - 1] == t1[i]);
                                        }
                                        assert(ff@[i] == t1[i]);
                                    }
                                    assert(rows_of(ff@)[f2 as int] == newrow2);
                                }
                            }
                            proof {
                                let nrows = rows_of(ff@);
                                assert(tbl_wf(nrows, files@.len() as nat)) by {
                                    lemma_ff_set_wf(
                                        rows0,
                                        rows1,
                                        nrows,
                                        f1,
                                        f2,
                                        c,
                                        files@.len() as nat,
                                    );
                                }
                                assert forall|fi: int, g: u32|
                                    #[trigger] tget(nrows, fi, g) == mget(
                                    stpost.ff,
                                    fi,
                                    g as int,
                                ) by {
                                    assert(stpost.ff == stpre.ff.insert(
                                        (f1 as int, f2 as int),
                                        c,
                                    ).insert((f2 as int, f1 as int), c));
                                    lemma_ff_set_cells(
                                        rows0,
                                        rows1,
                                        nrows,
                                        f1,
                                        f2,
                                        c,
                                        files@.len() as nat,
                                        fi,
                                        g,
                                    );
                                    if fi == f2 as int && g == f1 {
                                    } else if fi == f1 as int && g == f2 {
                                    } else {
                                        assert(mget(stpost.ff, fi, g as int) == mget(
                                            stpre.ff,
                                            fi,
                                            g as int,
                                        ));
                                    }
                                }
                            }
                        }
                    }
                }
                if !used {
                    skipped = skipped + 1;
                }
            }
        } else {
            stopped = true;
        }
        li = li + 1;
    }
    proof {
        if stopped {
            lemma_load_fold_frozen(lv, load_ff, li as int);
        } else {
            assert(lv.take(li as int) =~= lv);
        }
        assert(load_fold(lv, load_ff) == load_fold(lv.take(li as int), load_ff));
    }
    let ghost stfin = load_fold(lv, load_ff);
    if fa.len() != files.len() {
        proof {
            assert(rows_of(fa@) =~= Seq::<Seq<(u32, u32)>>::empty());
            lemma_empty_matches(stfin.fa, files@.len() as nat, authors@.len() as nat);
        }
        fa = make_rows(files.len());
        proof {
            assert forall|fi: int, a: u32|
                #[trigger] tget(rows_of(fa@), fi, a) == mget(stfin.fa, fi, a as int) by {
                if 0 <= fi < rows_of(fa@).len() {
                    assert(rows_of(fa@)[fi] =~= Seq::<(u32, u32)>::empty());
                }
            }
        }
    }
    if ff.len() != files.len() {
        proof {
            assert(rows_of(ff@) =~= Seq::<Seq<(u32, u32)>>::empty());
            lemma_empty_matches(stfin.ff, files@.len() as nat, files@.len() as nat);
        }
        ff = make_rows(files.len());
        proof {
            assert forall|fi: int, g: u32|
                #[trigger] tget(rows_of(ff@), fi, g) == mget(stfin.ff, fi, g as int) by {
                if 0 <= fi < rows_of(ff@).len() {
                    assert(rows_of(ff@)[fi] =~= Seq::<(u32, u32)>::empty());
                }
            }
        }
    }
    let db = ColabNetDatabase { authors, files, files_to_authors: fa, files_to_files: ff };
    proof {
        assert(db.wf());
        assert forall|fi: int, a: u32| #[trigger] db.fa_at(fi, a) == mget(stfin.fa, fi, a as int) by {
            assert(db.fa_at(fi, a) == tget(rows_of(db.files_to_authors@), fi, a));
        }
        assert forall|fi: int, g: u32| #[trigger] db.ff_at(fi, g) == mget(stfin.ff, fi, g as int) by {
            assert(db.ff_at(fi, g) == tget(rows_of(db.files_to_files@), fi, g));
        }
    }
    (db, skipped)
}

/// The mirrored store keeps the table well formed.
proof fn lemma_ff_set_wf(
    rows0: Seq<Seq<(u32, u32)>>,
    rows1: Seq<Seq<(u32, u32)>>,
    rows2: Seq<Seq<(u32, u32)>>,
    f1: u32,
    f2: u32,
    c: u32,
    bound: nat,
)
    requires
        tbl_wf(rows0, bound),
        rows0.len() == rows1.len() == rows2.len() == bound,
        (f1 as nat) < bound,
        (f2 as nat) < bound,
        assoc_wf(rows1[f1 as int]),
        forall|i: int| 0 <= i < rows1.len() && i != f1 as int ==> #[trigger] rows1[i] == rows0[i],
        forall|j: int|
            0 <= j < rows1[f1 as int].len() ==> (#[trigger] rows1[f1 as int][j]).0 == f2 || exists|
                j2: int,
            | 0 <= j2 < rows0[f1 as int].len() && rows0[f1 as int][j2].0 == rows1[f1 as int][j].0,
        f1 == f2 ==> rows2 == rows1,
        f1 != f2 ==> assoc_wf(rows2[f2 as int]),
        f1 != f2 ==> forall|i: int|
            0 <= i < rows2.len() && i != f2 as int ==> #[trigger] rows2[i] == rows1[i],
        f1 != f2 ==> forall|j: int|
            0 <= j < rows2[f2 as int].len() ==> (#[trigger] rows2[f2 as int][j]).0 == f1 || exists|
                j2: int,
            | 0 <= j2 < rows1[f2 as int].len() && rows1[f2 as int][j2].0 == rows2[f2 as int][j].0,
    ensures
        tbl_wf(rows2, bound),
{
    assert forall|i: int| 0 <= i < rows1.len() implies assoc_wf(#[trigger] rows1[i]) by {
        if i != f1 as int {
            assert(rows1[i] == rows0[i]);
        }
    }
    assert forall|i: int, j: int|
        0 <= i < rows1.len() && 0 <= j < rows1[i].len() implies ((#[trigger] rows1[i][j]).0
        as nat) < bound by {
        if i == f1 as int {
            if rows1[i][j].0 != f2 {
                let j2 = choose|j2: int|
                    0 <= j2 < rows0[i].len() && rows0[i][j2].0 == rows1[i][j].0;
                assert((rows0[i][j2].0 as nat) < bound);
            }
        } else {
            assert(rows1[i] == rows0[i]);
            assert((rows0[i][j].0 as nat) < bound);
        }
    }
    if f1 != f2 {
        assert forall|i: int| 0 <= i < rows2.len() implies assoc_wf(#[trigger] rows2[i]) by {
            if i != f2 as int {
                assert(rows2[i] == rows1[i]);
            }
        }
        assert forall|i: int, j: int|
            0 <= i < rows2.len() && 0 <= j < rows2[i].len() implies ((#[trigger] rows2[i][j]).0
            as nat) < bound by {
            if i == f2 as int {
                if rows2[i][j].0 != f1 {
                    let j2 = choose|j2: int|
                        0 <= j2 < rows1[i].len() && rows1[i][j2].0 == rows2[i][j].0;
                    assert((rows1[i][j2].0 as nat) < bound);
                }
            } else {
                assert(rows2[i] == rows1[i]);
                assert((rows1[i][j].0 as nat) < bound);
            }
        }
    }
}

/// What each cell reads after the mirrored store.
proof fn lemma_ff_set_cells(
    rows0: Seq<Seq<(u32, u32)>>,
    rows1: Seq<Seq<(u32, u32)>>,
    rows2: Seq<Seq<(u32, u32)>>,
    f1: u32,
    f2: u32,
    c: u32,
    bound: nat,
    fi: int,
    g: u32,
)
    requires
        rows0.len() == rows1.len() == rows2.len() == bound,
        (f1 as nat) < bound,
        (f2 as nat) < bound,
        forall|k2: u32|
            #[trigger] assoc_get(rows1[f1 as int], k2) == (if k2 == f2 {
                Some(c)
            } else {
                assoc_get(rows0[f1 as int], k2)
            }),
        forall|i: int| 0 <= i < rows1.len() && i != f1 as int ==> #[trigger] rows1[i] == rows0[i],
        f1 == f2 ==> rows2 == rows1,
        f1 != f2 ==> forall|k2: u32|
            #[trigger] assoc_get(rows2[f2 as int], k2) == (if k2 == f1 {
                Some(c)
            } else {
                assoc_get(rows1[f2 as int], k2)
            }),
        f1 != f2 ==> forall|i: int|
            0 <= i < rows2.len() && i != f2 as int ==> #[trigger] rows2[i] == rows1[i],
    ensures
        tget(rows2, fi, g) == (if fi == f1 as int && g == f2 {
            Some(c)
        } else if fi == f2 as int && g == f1 {
            Some(c)
        } else {
            tget(rows0, fi, g)
        }),
{
    if 0 <= fi < bound {
        if f1 == f2 {
            if fi == f1 as int {
                if g != f2 {
                    assert(assoc_get(rows1[fi], g) == assoc_get(rows0[fi], g));
                }
            } else {
                assert(rows2[fi] == rows0[fi]);
            }
        } else {
            if fi == f2 as int {
                if g != f1 {
                    assert(assoc_get(rows2[fi], g) == assoc_get(rows1[fi], g));
                    assert(rows1[fi] == rows0[fi]);
                }
            } else if fi == f1 as int {
                assert(rows2[fi] == rows1[fi]);
                if g != f2 {
                    assert(assoc_get(rows1[fi], g) == assoc_get(rows0[fi], g));
                }
            } else {
                assert(rows2[fi] == rows1[fi]);
                assert(rows1[fi] == rows0[fi]);
            }
        }
    }
}

/// Reads a snapshot from whole-file text: its lines, folded as
/// `load_snapshot_lines` does.
pub fn read_snapshot(text: &str, load_ff: bool) -> (r: (ColabNetDatabase, usize))
    ensures
        ({
            let st = load_fold(lines_of(text@), load_ff);
            &&& r.0.wf()
            &&& views_of(r.0.authors@) == st.authors
            &&& views_of(r.0.files@) == st.files
            &&& r.1 == st.skipped
            &&& forall|fi: int, a: u32| #[trigger] r.0.fa_at(fi, a) == mget(st.fa, fi, a as int)
            &&& forall|fi: int, g: u32| #[trigger] r.0.ff_at(fi, g) == mget(st.ff, fi, g as int)
        }),
{
    let lines = split_lines(text);
    load_snapshot_lines(&lines, load_ff)
}

} // verus!

verus! {

/// An edge line: two ids and a count, space-separated decimals.
pub open spec fn edge_line(i: nat, j: nat, c: nat) -> Seq<char> {
    crate::text::dec_rep(i) + seq![' '] + crate::text::dec_rep(j) + seq![' ']
        + crate::text::dec_rep(c)
}

/// The lines a file's author row contributes: one per non-zero entry, in
/// author id order.
pub open spec fn fa_row_lines(fi: nat, row: Seq<(u32, u32)>) -> Seq<Seq<char>>
    decreases row.len(),
{
    if row.len() == 0 {
        Seq::empty()
    } else {
        fa_row_lines(fi, row.drop_last()) + (if row.last().1 != 0 {
            seq![edge_line(fi, row.last().0 as nat, row.last().1 as nat)]
        } else {
            Seq::<Seq<char>>::empty()
        })
    }
}

/// The file→author section: rows in file id order.
pub open spec fn fa_lines(rows: Seq<Seq<(u32, u32)>>) -> Seq<Seq<char>>
    decreases rows.len(),
{
    if rows.len() == 0 {
        Seq::empty()
    } else {
        fa_lines(rows.drop_last()) + fa_row_lines((rows.len() - 1) as nat, rows.last())
    }
}

/// The lines a file's co-change row contributes: one per non-zero entry
/// whose partner id is not below the file's own — each unordered pair once.
pub open spec fn ff_row_lines(fi: nat, row: Seq<(u32, u32)>) -> Seq<Seq<char>>
    decreases row.len(),
{
    if row.len() == 0 {
        Seq::empty()
    } else {
        ff_row_lines(fi, row.drop_last()) + (if row.last().0 as nat >= fi && row.last().1 != 0 {
            seq![edge_line(fi, row.last().0 as nat, row.last().1 as nat)]
        } else {
            Seq::<Seq<char>>::empty()
        })
    }
}

/// The file→file section: rows in file id order, upper-triangular.
pub open spec fn ff_lines(rows: Seq<Seq<(u32, u32)>>) -> Seq<Seq<char>>
    decreases rows.len(),
{
    if rows.len() == 0 {
        Seq::empty()
    } else {
        ff_lines(rows.drop_last()) + ff_row_lines((rows.len() - 1) as nat, rows.last())
    }
}

/// The whole snapshot as lines: the four sections, blank-line-separated.
pub open spec fn snapshot_model(db: &ColabNetDatabase) -> Seq<Seq<char>> {
    views_of(db.authors@) + seq![Seq::<char>::empty()] + views_of(db.files@) + seq![
        Seq::<char>::empty(),
    ] + fa_lines(rows_of(db.files_to_authors@)) + seq![Seq::<char>::empty()] + ff_lines(
        rows_of(db.files_to_files@),
    )
}

/// One rendered edge line.
fn render_edge(i: u32, j: u32, c: u32) -> (r: String)
    ensures
        r@ == edge_line(i as nat, j as nat, c as nat),
{
    proof {
        reveal_strlit(" ");
    }
    let mut s = crate::text::fmt_u32(i);
    s.append(" ");
    let sj = crate::text::fmt_u32(j);
    s.append(sj.as_str());
    s.append(" ");
    let sc = crate::text::fmt_u32(c);
    s.append(sc.as_str());
    proof {
        assert(s@ =~= edge_line(i as nat, j as nat, c as nat));
    }
    s
}

/// The view of a pushed string list.
proof fn lemma_views_push(v: Seq<String>, x: String)
    ensures
        views_of(v.push(x)) =~= views_of(v).push(x@),
{
    assert forall|i: int| 0 <= i < v.len() + 1 implies views_of(v.push(x))[i] == views_of(v).push(
        x@,
    )[i] by {
        if i < v.len() {
            assert(v.push(x)[i] == v[i]);
        }
    }
}

/// Renders a database as snapshot lines, in writing order.
pub fn snapshot_lines(db: &ColabNetDatabase) -> (r: Vec<String>)
    requires
        db.wf(),
    ensures
        views_of(r@) == snapshot_model(db),
{
    let mut out: Vec<String> = Vec::new();
    let mut i: usize = 0;
    proof {
        assert(views_of(out@) =~= views_of(db.authors@).take(0));
    }
    while i < db.authors.len()
        invariant
            i <= db.authors@.len(),
            views_of(out@) == views_of(db.authors@).take(i as int),
        decreases db.authors@.len() - i,
    {
        let ghost ov = out@;
        out.push(db.authors[i].clone());
        proof {
            lemma_views_push(ov, db.authors@[i as int]);
            assert(views_of(out@) =~= views_of(ov).push(db.authors@[i as int]@));
            assert(views_of(out@) =~= views_of(db.authors@).take(i as int + 1));
        }
        i = i + 1;
    }
    let ghost ov1 = out@;
    out.push(String::new());
    let ghost sec1 = views_of(db.authors@) + seq![Seq::<char>::empty()];
    proof {
        lemma_views_push(ov1, out@[out@.len() - 1]);
        assert(views_of(db.authors@).take(db.authors@.len() as int) =~= views_of(db.authors@));
        assert(views_of(out@) =~= sec1);
    }
    let mut i2: usize = 0;
    proof {
        assert(views_of(out@) =~= sec1 + views_of(db.files@).take(0));
    }
    while i2 < db.files.len()
        invariant
            i2 <= db.files@.len(),
            views_of(out@) == sec1 + views_of(db.files@).take(i2 as int),
        decreases db.files@.len() - i2,
    {
        let ghost ov = out@;
        out.push(db.files[i2].clone());
        proof {
            lemma_views_push(ov, db.files@[i2 as int]);
            assert(views_of(out@) =~= views_of(ov).push(db.files@[i2 as int]@));
            assert(views_of(out@) =~= sec1 + views_of(db.files@).take(i2 as int + 1));
        }
        i2 = i2 + 1;
    }
    let ghost ov2 = out@;
    out.push(String::new());
    let ghost sec2 = sec1 + views_of(db.files@) + seq![Seq::<char>::empty()];
    proof {
        lemma_views_push(ov2, out@[out@.len() - 1]);
        assert(views_of(db.files@).take(db.files@.len() as int) =~= views_of(db.files@));
        assert(views_of(out@) =~= sec2);
    }
    let mut fi: usize = 0;
    proof {
        assert(fa_lines(rows_of(db.files_to_authors@).take(0)) =~= Seq::<Seq<char>>::empty());
        assert(views_of(out@) =~= sec2 + fa_lines(rows_of(db.files_to_authors@).take(0)));
    }
    while fi < db.files_to_authors.len()
        invariant
            db.wf(),
            fi <= db.files_to_authors@.len(),
            views_of(out@) == sec2 + fa_lines(rows_of(db.files_to_authors@).take(fi as int)),
        decreases db.files_to_authors@.len() - fi,
    {
        let row = &db.files_to_authors[fi];
        let mut j: usize = 0;
        proof {
            assert(fa_row_lines(fi as nat, row@.take(0)) =~= Seq::<Seq<char>>::empty());
            assert(views_of(out@) =~= sec2 + fa_lines(rows_of(db.files_to_authors@).take(fi as int))
                + fa_row_lines(fi as nat, row@.take(0)));
        }
        while j < row.len()
            invariant
                db.wf(),
                fi < db.files_to_authors@.len(),
                row == &db.files_to_authors[fi as int],
                j <= row@.len(),
                views_of(out@) == sec2 + fa_lines(rows_of(db.files_to_authors@).take(fi as int))
                    + fa_row_lines(fi as nat, row@.take(j as int)),
            decreases row@.len() - j,
        {
            let e = row[j];
            proof {
                assert(row@.take(j as int + 1).drop_last() =~= row@.take(j as int));
                assert(row@.take(j as int + 1).last() == e);
            }
            if e.1 != 0 {
                let ghost ov = out@;
                let line = render_edge(fi as u32, e.0, e.1);
                let ghost lview = line@;
                out.push(line);
                proof {
                    lemma_views_push(ov, out@[out@.len() - 1]);
                    assert(views_of(out@) =~= views_of(ov).push(lview));
                    assert(fa_row_lines(fi as nat, row@.take(j as int + 1)) =~= fa_row_lines(
                        fi as nat,
                        row@.take(j as int),
                    ) + seq![lview]);
                    assert(views_of(out@) =~= sec2 + fa_lines(
                        rows_of(db.files_to_authors@).take(fi as int),
                    ) + fa_row_lines(fi as nat, row@.take(j as int + 1)));
                }
            } else {
                proof {
                    assert(fa_row_lines(fi as nat, row@.take(j as int + 1)) =~= fa_row_lines(
                        fi as nat,
                        row@.take(j as int),
                    ));
                }
            }
            j = j + 1;
        }
        proof {
            let rows = rows_of(db.files_to_authors@);
            assert(rows.take(fi as int + 1).drop_last() =~= rows.take(fi as int));
            assert(rows.take(fi as int + 1).last() == row@);
            assert(row@.take(row@.len() as int) =~= row@);
            assert(views_of(out@) =~= sec2 + fa_lines(rows.take(fi as int + 1)));
        }
        fi = fi + 1;
    }
    let ghost ov3 = out@;
    out.push(String::new());
    let ghost sec3 = sec2 + fa_lines(rows_of(db.files_to_authors@)) + seq![Seq::<char>::empty()];
    proof {
        lemma_views_push(ov3, out@[out@.len() - 1]);
        let rows = rows_of(db.files_to_authors@);
        assert(rows.take(rows.len() as int) =~= rows);
        assert(views_of(out@) =~= sec3);
    }
    let mut fi2: usize = 0;
    proof {
        assert(ff_lines(rows_of(db.files_to_files@).take(0)) =~= Seq::<Seq<char>>::empty());
        assert(views_of(out@) =~= sec3 + ff_lines(rows_of(db.files_to_files@).take(0)));
    }
    while fi2 < db.files_to_files.len()
        invariant
            db.wf(),
            fi2 <= db.files_to_files@.len(),
            views_of(out@) == sec3 + ff_lines(rows_of(db.files_to_files@).take(fi2 as int)),
        decreases db.files_to_files@.len() - fi2,
    {
        let row = &db.files_to_files[fi2];
        let mut j: usize = 0;
        proof {
            assert(ff_row_lines(fi2 as nat, row@.take(0)) =~= Seq::<Seq<char>>::empty());
            assert(views_of(out@) =~= sec3 + ff_lines(rows_of(db.files_to_files@).take(fi2 as int))
                + ff_row_lines(fi2 as nat, row@.take(0)));
        }
        while j < row.len()
            invariant
                db.wf(),
                fi2 < db.files_to_files@.len(),
                row == &db.files_to_files[fi2 as int],
                j <= row@.len(),
                views_of(out@) == sec3 + ff_lines(rows_of(db.files_to_files@).take(fi2 as int))
                    + ff_row_lines(fi2 as nat, row@.take(j as int)),
            decreases row@.len() - j,
        {
            let e = row[j];
            proof {
                assert(row@.take(j as int + 1).drop_last() =~= row@.take(j as int));
                assert(row@.take(j as int + 1).last() == e);
            }
            if (e.0 as usize) >= fi2 && e.1 != 0 {
                let ghost ov = out@;
                let line = render_edge(fi2 as u32, e.0, e.1);
                let ghost lview = line@;
                out.push(line);
                proof {
                    lemma_views_push(ov, out@[out@.len() - 1]);
                    assert(views_of(out@) =~= views_of(ov).push(lview));
                    assert(ff_row_lines(fi2 as nat, row@.take(j as int + 1)) =~= ff_row_lines(
                        fi2 as nat,
                        row@.take(j as int),
                    ) + seq![lview]);
                    assert(views_of(out@) =~= sec3 + ff_lines(
                        rows_of(db.files_to_files@).take(fi2 as int),
                    ) + ff_row_lines(fi2 as nat, row@.take(j as int + 1)));
                }
            } else {
                proof {
                    assert(ff_row_lines(fi2 as nat, row@.take(j as int + 1)) =~= ff_row_lines(
                        fi2 as nat,
                        row@.take(j as int),
                    ));
                }
            }
            j = j + 1;
        }
        proof {
            let rows = rows_of(db.files_to_files@);
            assert(rows.take(fi2 as int + 1).drop_last() =~= rows.take(fi2 as int));
            assert(rows.take(fi2 as int + 1).last() == row@);
            assert(row@.take(row@.len() as int) =~= row@);
            assert(views_of(out@) =~= sec3 + ff_lines(rows.take(fi2 as int + 1)));
        }
        fi2 = fi2 + 1;
    }
    proof {
        let rows = rows_of(db.files_to_files@);
        assert(rows.take(rows.len() as int) =~= rows);
        assert(views_of(out@) =~= snapshot_model(db));
    }
    out
}

/// The lines joined into file text, a newline after each line.
pub open spec fn join_lines(ls: Seq<Seq<char>>) -> Seq<char>
    decreases ls.len(),
{
    if ls.len() == 0 {
        Seq::empty()
    } else {
        join_lines(ls.drop_last()) + ls.last() + seq!['\n']
    }
}

/// Renders a database as whole-file snapshot text.
pub fn write_snapshot(db: &ColabNetDatabase) -> (r: String)
    requires
        db.wf(),
    ensures
        r@ == join_lines(snapshot_model(db)),
{
    proof {
        reveal_strlit("\n");
    }
    let lines = snapshot_lines(db);
    let mut out = String::new();
    let mut i: usize = 0;
    proof {
        assert(out@ =~= join_lines(views_of(lines@).take(0)));
    }
    while i < lines.len()
        invariant
            i <= lines@.len(),
            out@ == join_lines(views_of(lines@).take(i as int)),
        decreases lines@.len() - i,
    {
        out.append(lines[i].as_str());
        out.append("\n");
        proof {
            let lv = views_of(lines@);
            assert(lv.take(i as int + 1).drop_last() =~= lv.take(i as int));
            assert(lv.take(i as int + 1).last() == lv[i as int]);
            assert(out@ =~= join_lines(lv.take(i as int + 1)));
        }
        i = i + 1;
    }
    proof {
        assert(views_of(lines@).take(lines@.len() as int) =~= views_of(lines@));
    }
    out
}

} // verus!

verus! {

/// The reader's state after more lines, from a given state.
pub open spec fn load_run(st: LoadState, lines: Seq<Seq<char>>, load_ff: bool) -> LoadState
    decreases lines.len(),
{
    if lines.len() == 0 {
        st
    } else {
        load_step(load_run(st, lines.drop_last(), load_ff), lines.last(), load_ff)
    }
}

pub proof fn lemma_fold_is_run(lines: Seq<Seq<char>>, load_ff: bool)
    ensures
        load_fold(lines, load_ff) == load_run(load_init(), lines, load_ff),
    decreases lines.len(),
{
    if lines.len() > 0 {
        lemma_fold_is_run(lines.drop_last(), load_ff);
    }
}

pub proof fn lemma_run_append(st: LoadState, a: Seq<Seq<char>>, b: Seq<Seq<char>>, load_ff: bool)
    ensures
        load_run(st, a + b, load_ff) == load_run(load_run(st, a, load_ff), b, load_ff),
    decreases b.len(),
{
    if b.len() == 0 {
        assert(a + b =~= a);
    } else {
        assert((a + b).drop_last() =~= a + b.drop_last());
        assert((a + b).last() == b.last());
        lemma_run_append(st, a, b.drop_last(), load_ff);
    }
}

/// The tokens of an edge line are its three numerals.
pub proof fn lemma_tokens_edge_line(x: nat, y: nat, z: nat)
    ensures
        tokens_of(edge_line(x, y, z)) == seq![
            crate::text::dec_rep(x),
            crate::text::dec_rep(y),
            crate::text::dec_rep(z),
        ],
{
    let a = crate::text::dec_rep(x);
    let b = crate::text::dec_rep(y);
    let c = crate::text::dec_rep(z);
    let sp = seq![' '];
    crate::text::lemma_dec_rep_plain(x);
    crate::text::lemma_dec_rep_plain(y);
    crate::text::lemma_dec_rep_plain(z);
    crate::text::lemma_dec_rep_digits(x);
    crate::text::lemma_dec_rep_digits(y);
    crate::text::lemma_dec_rep_digits(z);
    let r1 = sp + (b + (sp + c));
    assert(edge_line(x, y, z) =~= a + r1);
    assert(r1[0] == ' ');
    crate::text::lemma_tokens_word(a, r1);
    crate::text::lemma_tokens_space(b + (sp + c));
    let r2 = sp + c;
    assert((b + r2)[0] == b[0]);
    assert(r2[0] == ' ');
    crate::text::lemma_tokens_word(b, r2);
    crate::text::lemma_tokens_space(c);
    let e = Seq::<char>::empty();
    assert(c =~= c + e);
    crate::text::lemma_tokens_word(c, e);
    assert(tokens_of(e) =~= Seq::<Seq<char>>::empty());
    assert(tokens_of(c + e) == seq![c] + tokens_of(e));
    assert(tokens_of(c) =~= seq![c]);
    assert(tokens_of(edge_line(x, y, z)) =~= seq![a, b, c]);
}

/// Loading one sorted block of trimmed, nonempty name lines onto a reader in
/// the author section appends them all.
proof fn lemma_run_author_names(st: LoadState, nms: Seq<Seq<char>>, load_ff: bool)
    requires
        !st.stopped,
        st.mode == 0,
        st.authors.len() + nms.len() <= u32::MAX as nat,
        sorted_names(st.authors + nms),
        forall|i: int| 0 <= i < nms.len() ==> (#[trigger] nms[i]).len() > 0,
        forall|i: int| 0 <= i < nms.len() ==> trim_of(#[trigger] nms[i]) == nms[i],
    ensures
        load_run(st, nms, load_ff) == (LoadState { authors: st.authors + nms, ..st }),
    decreases nms.len(),
{
    if nms.len() == 0 {
        assert(st.authors + nms =~= st.authors);
        assert(load_run(st, nms, load_ff) == LoadState { authors: st.authors + nms, ..st });
    } else {
        let pre = nms.drop_last();
        assert(sorted_names(st.authors + pre)) by {
            let whole = st.authors + nms;
            let part = st.authors + pre;
            assert forall|i: int, j: int|
                0 <= i < j < part.len() implies crate::text::lex_lt(part[i], part[j]) by {
                assert(part[i] == whole[i]);
                assert(part[j] == whole[j]);
            }
        }
        assert(forall|i: int| 0 <= i < pre.len() ==> (#[trigger] pre[i]) == nms[i]);
        lemma_run_author_names(st, pre, load_ff);
        let s1 = load_run(st, pre, load_ff);
        let nm = nms.last();
        assert(load_run(st, nms, load_ff) == load_step(s1, nm, load_ff));
        assert(nm.len() > 0);
        assert(trim_of(nm) == nm);
        assert(name_ok(s1.authors, nm)) by {
            assert(s1.authors.len() < u32::MAX as nat);
            if s1.authors.len() > 0 {
                let whole = st.authors + nms;
                let li = s1.authors.len() - 1;
                assert(s1.authors.last() == whole[li]);
                assert(whole[whole.len() - 1] == nm);
                assert(crate::text::lex_lt(whole[li], whole[whole.len() - 1]));
            }
        }
        assert(s1.authors.push(nm) =~= st.authors + nms);
        assert(load_step(s1, nm, load_ff) == LoadState { authors: st.authors + nms, ..st });
    }
}

/// The same for the file section.
proof fn lemma_run_file_names(st: LoadState, nms: Seq<Seq<char>>, load_ff: bool)
    requires
        !st.stopped,
        st.mode == 1,
        st.files.len() + nms.len() <= u32::MAX as nat,
        sorted_names(st.files + nms),
        forall|i: int| 0 <= i < nms.len() ==> (#[trigger] nms[i]).len() > 0,
        forall|i: int| 0 <= i < nms.len() ==> trim_of(#[trigger] nms[i]) == nms[i],
    ensures
        load_run(st, nms, load_ff) == (LoadState { files: st.files + nms, ..st }),
    decreases nms.len(),
{
    if nms.len() == 0 {
        assert(st.files + nms =~= st.files);
        assert(load_run(st, nms, load_ff) == LoadState { files: st.files + nms, ..st });
    } else {
        let pre = nms.drop_last();
        assert(sorted_names(st.files + pre)) by {
            let whole = st.files + nms;
            let part = st.files + pre;
            assert forall|i: int, j: int|
                0 <= i < j < part.len() implies crate::text::lex_lt(part[i], part[j]) by {
                assert(part[i] == whole[i]);
                assert(part[j] == whole[j]);
            }
        }
        assert(forall|i: int| 0 <= i < pre.len() ==> (#[trigger] pre[i]) == nms[i]);
        lemma_run_file_names(st, pre, load_ff);
        let s1 = load_run(st, pre, load_ff);
        let nm = nms.last();
        assert(nm.len() > 0);
        assert(trim_of(nm) == nm);
        assert(name_ok(s1.files, nm)) by {
            assert(s1.files.len() < u32::MAX as nat);
            if s1.files.len() > 0 {
                let whole = st.files + nms;
                let li = s1.files.len() - 1;
                assert(s1.files.last() == whole[li]);
                assert(whole[whole.len() - 1] == nm);
                assert(crate::text::lex_lt(whole[li], whole[whole.len() - 1]));
            }
        }
        assert(s1.files.push(nm) =~= st.files + nms);
        assert(load_step(s1, nm, load_ff) == LoadState { files: st.files + nms, ..st });
    }
}

} // verus!

verus! {

/// Looking up in a well-formed row splits on its last entry.
proof fn lemma_assoc_get_drop_last(row: Seq<(u32, u32)>, k: u32)
    requires
        crate::assoc::assoc_wf(row),
        row.len() > 0,
    ensures
        assoc_get(row, k) == (if row.last().0 == k {
            Some(row.last().1)
        } else {
            assoc_get(row.drop_last(), k)
        }),
{
    let t = row.drop_last();
    assert(crate::assoc::assoc_wf(t)) by {
        assert forall|i: int, j: int|
            0 <= i < j < t.len() implies (#[trigger] t[i]).0 < (#[trigger] t[j]).0 by {
            assert(t[i] == row[i]);
            assert(t[j] == row[j]);
        }
    }
    crate::assoc::lemma_assoc_get_wf(row, k);
    crate::assoc::lemma_assoc_get_wf(t, k);
    if row.last().0 == k {
        assert(row[row.len() - 1].0 == k);
        assert(assoc_get(row, k) == Some(row.last().1));
    } else {
        match assoc_get(row, k) {
            Some(v) => {
                let i = choose|i: int| 0 <= i < row.len() && row[i] == (k, v);
                assert(i != row.len() - 1);
                assert(t[i] == (k, v));
                assert(assoc_get(t, k) == Some(v));
            },
            None => {
                if assoc_get(t, k) is Some {
                    let v = assoc_get(t, k)->Some_0;
                    let i = choose|i: int| 0 <= i < t.len() && t[i] == (k, v);
                    assert(row[i].0 == k);
                }
            },
        }
    }
}

/// Loading the rendered lines of one file→author row stores exactly its
/// non-zero entries under that file id.
proof fn lemma_run_fa_row(st: LoadState, fi: nat, row: Seq<(u32, u32)>, load_ff: bool)
    requires
        !st.stopped,
        st.mode == 2,
        fi < st.files.len(),
        st.files.len() <= u32::MAX as nat,
        st.authors.len() <= u32::MAX as nat,
        crate::assoc::assoc_wf(row),
        forall|j: int| 0 <= j < row.len() ==> ((#[trigger] row[j]).0 as nat) < st.authors.len(),
    ensures
        ({
            let r = load_run(st, fa_row_lines(fi, row), load_ff);
            &&& r.mode == st.mode
            &&& r.stopped == st.stopped
            &&& r.authors == st.authors
            &&& r.files == st.files
            &&& r.ff == st.ff
            &&& r.skipped == st.skipped
            &&& forall|i: int, a: int|
                mget(#[trigger] r.fa, i, a) == (if i == fi && 0 <= a <= u32::MAX && assoc_get(
                    row,
                    a as u32,
                ) is Some && assoc_get(row, a as u32)->Some_0 != 0 {
                    assoc_get(row, a as u32)
                } else {
                    mget(st.fa, i, a)
                })
        }),
    decreases row.len(),
{
    if row.len() == 0 {
        assert(fa_row_lines(fi, row) =~= Seq::<Seq<char>>::empty());
    } else {
        let t = row.drop_last();
        assert(crate::assoc::assoc_wf(t)) by {
            assert forall|i: int, j: int|
                0 <= i < j < t.len() implies (#[trigger] t[i]).0 < (#[trigger] t[j]).0 by {
                assert(t[i] == row[i]);
                assert(t[j] == row[j]);
            }
        }
        assert(forall|j: int| 0 <= j < t.len() ==> (#[trigger] t[j]) == row[j]);
        lemma_run_fa_row(st, fi, t, load_ff);
        let r1 = load_run(st, fa_row_lines(fi, t), load_ff);
        let e = row.last();
        crate::assoc::lemma_assoc_get_wf(row, e.0);
        assert(row[row.len() - 1].0 == e.0);
        assert(assoc_get(row, e.0) == Some(e.1));
        if e.1 != 0 {
            let line = edge_line(fi, e.0 as nat, e.1 as nat);
            assert(fa_row_lines(fi, row) == fa_row_lines(fi, t) + seq![line]);
            lemma_run_append(st, fa_row_lines(fi, t), seq![line], load_ff);
            assert(seq![line].len() == 1);
            assert(seq![line].last() == line);
            assert(seq![line].drop_last() =~= Seq::<Seq<char>>::empty());
            assert(load_run(r1, seq![line].drop_last(), load_ff) == r1);
            assert(load_run(r1, seq![line], load_ff) == load_step(r1, line, load_ff));
            // the line parses back to its three numbers
            crate::text::lemma_dec_rep_digits(fi);
            assert(line.len() > 0);
            lemma_tokens_edge_line(fi, e.0 as nat, e.1 as nat);
            crate::text::lemma_parse_dec(fi);
            crate::text::lemma_parse_dec(e.0 as nat);
            crate::text::lemma_parse_dec(e.1 as nat);
            let toks = tokens_of(line);
            assert(toks.len() == 3);
            assert(parse_u32_spec(toks[0]) == Some(fi as u32));
            assert(parse_u32_spec(toks[1]) == Some(e.0));
            assert(parse_u32_spec(toks[2]) == Some(e.1));
            let r2 = load_step(r1, line, load_ff);
            assert(r2.fa == r1.fa.insert((fi as int, e.0 as int), e.1));
            assert forall|i: int, a: int|
                mget(#[trigger] r2.fa, i, a) == (if i == fi && 0 <= a <= u32::MAX && assoc_get(
                    row,
                    a as u32,
                ) is Some && assoc_get(row, a as u32)->Some_0 != 0 {
                    assoc_get(row, a as u32)
                } else {
                    mget(st.fa, i, a)
                }) by {
                if i == fi && a == e.0 as int {
                    assert(mget(r2.fa, i, a) == Some(e.1));
                } else {
                    assert((i, a) != (fi as int, e.0 as int));
                    assert(mget(r2.fa, i, a) == mget(r1.fa, i, a));
                    if i == fi && 0 <= a <= u32::MAX {
                        assert(a as u32 != e.0);
                        lemma_assoc_get_drop_last(row, a as u32);
                    }
                }
            }
        } else {
            assert(fa_row_lines(fi, row) =~= fa_row_lines(fi, t));
            assert forall|i: int, a: int|
                mget(#[trigger] r1.fa, i, a) == (if i == fi && 0 <= a <= u32::MAX && assoc_get(
                    row,
                    a as u32,
                ) is Some && assoc_get(row, a as u32)->Some_0 != 0 {
                    assoc_get(row, a as u32)
                } else {
                    mget(st.fa, i, a)
                }) by {
                if i == fi && 0 <= a <= u32::MAX {
                    lemma_assoc_get_drop_last(row, a as u32);
                    if a as u32 == e.0 {
                        assert forall|j: int| 0 <= j < t.len() implies (#[trigger] t[j]).0
                            != e.0 by {
                            assert(t[j] == row[j]);
                            assert(row[j].0 < row[row.len() - 1].0);
                        }
                        crate::assoc::lemma_assoc_get_absent(t, e.0);
                    }
                }
            }
        }
    }
}

/// Loading the whole file→author section stores exactly the non-zero cells
/// of the table.
proof fn lemma_run_fa_section(st: LoadState, rows: Seq<Seq<(u32, u32)>>, load_ff: bool)
    requires
        !st.stopped,
        st.mode == 2,
        rows.len() <= st.files.len(),
        st.files.len() <= u32::MAX as nat,
        st.authors.len() <= u32::MAX as nat,
        crate::db::tbl_wf(rows, st.authors.len()),
    ensures
        ({
            let r = load_run(st, fa_lines(rows), load_ff);
            &&& r.mode == st.mode
            &&& r.stopped == st.stopped
            &&& r.authors == st.authors
            &&& r.files == st.files
            &&& r.ff == st.ff
            &&& r.skipped == st.skipped
            &&& forall|i: int, a: int|
                mget(#[trigger] r.fa, i, a) == (if 0 <= i < rows.len() && 0 <= a <= u32::MAX
                    && assoc_get(rows[i], a as u32) is Some && assoc_get(rows[i], a as u32)->Some_0
                    != 0 {
                    assoc_get(rows[i], a as u32)
                } else {
                    mget(st.fa, i, a)
                })
        }),
    decreases rows.len(),
{
    if rows.len() == 0 {
        assert(fa_lines(rows) =~= Seq::<Seq<char>>::empty());
    } else {
        let t = rows.drop_last();
        assert(crate::db::tbl_wf(t, st.authors.len())) by {
            assert forall|i: int| 0 <= i < t.len() implies crate::assoc::assoc_wf(
                #[trigger] t[i],
            ) by {
                assert(t[i] == rows[i]);
            }
            assert forall|i: int, j: int|
                0 <= i < t.len() && 0 <= j < t[i].len() implies ((#[trigger] t[i][j]).0 as nat)
                < st.authors.len() by {
                assert(t[i] == rows[i]);
                assert((rows[i][j].0 as nat) < st.authors.len());
            }
        }
        lemma_run_fa_section(st, t, load_ff);
        let r1 = load_run(st, fa_lines(t), load_ff);
        let fi = (rows.len() - 1) as nat;
        assert(fa_lines(rows) == fa_lines(t) + fa_row_lines(fi, rows.last()));
        lemma_run_append(st, fa_lines(t), fa_row_lines(fi, rows.last()), load_ff);
        assert(crate::assoc::assoc_wf(rows[rows.len() - 1]));
        assert(forall|j: int|
            0 <= j < rows.last().len() ==> ((#[trigger] rows.last()[j]).0 as nat)
                < st.authors.len()) by {
            assert(forall|j: int|
                0 <= j < rows[rows.len() - 1].len() ==> ((#[trigger] rows[rows.len() - 1][j]).0
                    as nat) < st.authors.len());
        }
        lemma_run_fa_row(r1, fi, rows.last(), load_ff);
        let r2 = load_run(r1, fa_row_lines(fi, rows.last()), load_ff);
        assert forall|i: int, a: int|
            mget(#[trigger] r2.fa, i, a) == (if 0 <= i < rows.len() && 0 <= a <= u32::MAX
                && assoc_get(rows[i], a as u32) is Some && assoc_get(rows[i], a as u32)->Some_0
                != 0 {
                assoc_get(rows[i], a as u32)
            } else {
                mget(st.fa, i, a)
            }) by {
            if i == fi {
                assert(rows[i] == rows.last());
            }
        }
    }
}

} // verus!

verus! {

/// Loading the rendered lines of one file→file row stores its non-zero
/// upper-triangular entries under both directions of each pair.
proof fn lemma_run_ff_row(st: LoadState, fi: nat, row: Seq<(u32, u32)>)
    requires
        !st.stopped,
        st.mode == 3,
        fi < st.files.len(),
        st.files.len() <= u32::MAX as nat,
        crate::assoc::assoc_wf(row),
        forall|j: int| 0 <= j < row.len() ==> ((#[trigger] row[j]).0 as nat) < st.files.len(),
    ensures
        ({
            let r = load_run(st, ff_row_lines(fi, row), true);
            &&& r.mode == st.mode
            &&& r.stopped == st.stopped
            &&& r.authors == st.authors
            &&& r.files == st.files
            &&& r.fa == st.fa
            &&& r.skipped == st.skipped
            &&& forall|i: int, j: int|
                mget(#[trigger] r.ff, i, j) == (if (i == fi && fi <= j <= u32::MAX && assoc_get(
                    row,
                    j as u32,
                ) is Some && assoc_get(row, j as u32)->Some_0 != 0) {
                    assoc_get(row, j as u32)
                } else if (j == fi && fi <= i <= u32::MAX && assoc_get(row, i as u32) is Some
                    && assoc_get(row, i as u32)->Some_0 != 0) {
                    assoc_get(row, i as u32)
                } else {
                    mget(st.ff, i, j)
                })
        }),
    decreases row.len(),
{
    if row.len() == 0 {
        assert(ff_row_lines(fi, row) =~= Seq::<Seq<char>>::empty());
    } else {
        let t = row.drop_last();
        assert(crate::assoc::assoc_wf(t)) by {
            assert forall|i: int, j: int|
                0 <= i < j < t.len() implies (#[trigger] t[i]).0 < (#[trigger] t[j]).0 by {
                assert(t[i] == row[i]);
                assert(t[j] == row[j]);
            }
        }
        assert(forall|j: int| 0 <= j < t.len() ==> (#[trigger] t[j]) == row[j]);
        lemma_run_ff_row(st, fi, t);
        let r1 = load_run(st, ff_row_lines(fi, t), true);
        let e = row.last();
        crate::assoc::lemma_assoc_get_wf(row, e.0);
        assert(row[row.len() - 1].0 == e.0);
        assert(assoc_get(row, e.0) == Some(e.1));
        if e.0 as nat >= fi && e.1 != 0 {
            let line = edge_line(fi, e.0 as nat, e.1 as nat);
            assert(ff_row_lines(fi, row) == ff_row_lines(fi, t) + seq![line]);
            lemma_run_append(st, ff_row_lines(fi, t), seq![line], true);
            assert(seq![line].len() == 1);
            assert(seq![line].last() == line);
            assert(seq![line].drop_last() =~= Seq::<Seq<char>>::empty());
            assert(load_run(r1, seq![line].drop_last(), true) == r1);
            assert(load_run(r1, seq![line], true) == load_step(r1, line, true));
            crate::text::lemma_dec_rep_digits(fi);
            assert(line.len() > 0);
            lemma_tokens_edge_line(fi, e.0 as nat, e.1 as nat);
            crate::text::lemma_parse_dec(fi);
            crate::text::lemma_parse_dec(e.0 as nat);
            crate::text::lemma_parse_dec(e.1 as nat);
            let toks = tokens_of(line);
            assert(toks.len() == 3);
            assert(parse_u32_spec(toks[0]) == Some(fi as u32));
            assert(parse_u32_spec(toks[1]) == Some(e.0));
            assert(parse_u32_spec(toks[2]) == Some(e.1));
            let r2 = load_step(r1, line, true);
            assert(r2.ff == r1.ff.insert((fi as int, e.0 as int), e.1).insert(
                (e.0 as int, fi as int),
                e.1,
            ));
            assert forall|i: int, j: int|
                mget(#[trigger] r2.ff, i, j) == (if (i == fi && fi <= j <= u32::MAX && assoc_get(
                    row,
                    j as u32,
                ) is Some && assoc_get(row, j as u32)->Some_0 != 0) {
                    assoc_get(row, j as u32)
                } else if (j == fi && fi <= i <= u32::MAX && assoc_get(row, i as u32) is Some
                    && assoc_get(row, i as u32)->Some_0 != 0) {
                    assoc_get(row, i as u32)
                } else {
                    mget(st.ff, i, j)
                }) by {
                if i == fi && j == e.0 as int {
                    assert(mget(r2.ff, i, j) == Some(e.1));
                } else if i == e.0 as int && j == fi {
                    assert(mget(r2.ff, i, j) == Some(e.1));
                } else {
                    assert((i, j) != (fi as int, e.0 as int));
                    assert((i, j) != (e.0 as int, fi as int));
                    assert(mget(r2.ff, i, j) == mget(r1.ff, i, j));
                    if i == fi && fi <= j <= u32::MAX {
                        assert(j as u32 != e.0);
                        lemma_assoc_get_drop_last(row, j as u32);
                    }
                    if j == fi && fi <= i <= u32::MAX {
                        assert(i as u32 != e.0);
                        lemma_assoc_get_drop_last(row, i as u32);
                    }
                }
            }
        } else {
            assert(ff_row_lines(fi, row) =~= ff_row_lines(fi, t));
            assert forall|i: int, j: int|
                mget(#[trigger] r1.ff, i, j) == (if (i == fi && fi <= j <= u32::MAX && assoc_get(
                    row,
                    j as u32,
                ) is Some && assoc_get(row, j as u32)->Some_0 != 0) {
                    assoc_get(row, j as u32)
                } else if (j == fi && fi <= i <= u32::MAX && assoc_get(row, i as u32) is Some
                    && assoc_get(row, i as u32)->Some_0 != 0) {
                    assoc_get(row, i as u32)
                } else {
                    mget(st.ff, i, j)
                }) by {
                if i == fi && fi <= j <= u32::MAX {
                    lemma_assoc_get_drop_last(row, j as u32);
                    if j as u32 == e.0 {
                        assert forall|j2: int| 0 <= j2 < t.len() implies (#[trigger] t[j2]).0
                            != e.0 by {
                            assert(t[j2] == row[j2]);
                            assert(row[j2].0 < row[row.len() - 1].0);
                        }
                        crate::assoc::lemma_assoc_get_absent(t, e.0);
                    }
                }
                if j == fi && fi <= i <= u32::MAX {
                    lemma_assoc_get_drop_last(row, i as u32);
                    if i as u32 == e.0 {
                        assert forall|j2: int| 0 <= j2 < t.len() implies (#[trigger] t[j2]).0
                            != e.0 by {
                            assert(t[j2] == row[j2]);
                            assert(row[j2].0 < row[row.len() - 1].0);
                        }
                        crate::assoc::lemma_assoc_get_absent(t, e.0);
                    }
                }
            }
        }
    }
}

/// Loading the whole file→file section stores, for every unordered pair,
/// the non-zero count its lower-id row holds for its higher-id partner.
proof fn lemma_run_ff_section(st: LoadState, rows: Seq<Seq<(u32, u32)>>)
    requires
        !st.stopped,
        st.mode == 3,
        rows.len() <= st.files.len(),
        st.files.len() <= u32::MAX as nat,
        crate::db::tbl_wf(rows, st.files.len()),
    ensures
        ({
            let r = load_run(st, ff_lines(rows), true);
            &&& r.mode == st.mode
            &&& r.stopped == st.stopped
            &&& r.authors == st.authors
            &&& r.files == st.files
            &&& r.fa == st.fa
            &&& r.skipped == st.skipped
            &&& forall|i: int, j: int|
                mget(#[trigger] r.ff, i, j) == ({
                    let lo = if i <= j { i } else { j };
                    let hi = if i <= j { j } else { i };
                    if 0 <= lo < rows.len() && hi <= u32::MAX && assoc_get(rows[lo], hi as u32)
                        is Some && assoc_get(rows[lo], hi as u32)->Some_0 != 0 {
                        assoc_get(rows[lo], hi as u32)
                    } else {
                        mget(st.ff, i, j)
                    }
                })
        }),
    decreases rows.len(),
{
    if rows.len() == 0 {
        assert(ff_lines(rows) =~= Seq::<Seq<char>>::empty());
    } else {
        let t = rows.drop_last();
        assert(crate::db::tbl_wf(t, st.files.len())) by {
            assert forall|i: int| 0 <= i < t.len() implies crate::assoc::assoc_wf(
                #[trigger] t[i],
            ) by {
                assert(t[i] == rows[i]);
            }
            assert forall|i: int, j: int|
                0 <= i < t.len() && 0 <= j < t[i].len() implies ((#[trigger] t[i][j]).0 as nat)
                < st.files.len() by {
                assert(t[i] == rows[i]);
                assert((rows[i][j].0 as nat) < st.files.len());
            }
        }
        lemma_run_ff_section(st, t);
        let r1 = load_run(st, ff_lines(t), true);
        let fi = (rows.len() - 1) as nat;
        assert(ff_lines(rows) == ff_lines(t) + ff_row_lines(fi, rows.last()));
        lemma_run_append(st, ff_lines(t), ff_row_lines(fi, rows.last()), true);
        assert(crate::assoc::assoc_wf(rows[rows.len() - 1]));
        assert(forall|j: int|
            0 <= j < rows.last().len() ==> ((#[trigger] rows.last()[j]).0 as nat)
                < st.files.len()) by {
            assert(forall|j: int|
                0 <= j < rows[rows.len() - 1].len() ==> ((#[trigger] rows[rows.len() - 1][j]).0
                    as nat) < st.files.len());
        }
        lemma_run_ff_row(r1, fi, rows.last());
        let r2 = load_run(r1, ff_row_lines(fi, rows.last()), true);
        assert forall|i: int, j: int|
            mget(#[trigger] r2.ff, i, j) == ({
                let lo = if i <= j { i } else { j };
                let hi = if i <= j { j } else { i };
                if 0 <= lo < rows.len() && hi <= u32::MAX && assoc_get(rows[lo], hi as u32)
                    is Some && assoc_get(rows[lo], hi as u32)->Some_0 != 0 {
                    assoc_get(rows[lo], hi as u32)
                } else {
                    mget(st.ff, i, j)
                }
            }) by {
            let lo = if i <= j { i } else { j };
            let hi = if i <= j { j } else { i };
            assert(rows.last() == rows[fi as int]);
            if i == fi && fi <= j <= u32::MAX && assoc_get(rows[fi as int], j as u32) is Some
                && assoc_get(rows[fi as int], j as u32)->Some_0 != 0 {
                assert(lo == fi && hi == j);
            } else if j == fi && fi <= i <= u32::MAX && assoc_get(rows[fi as int], i as u32)
                is Some && assoc_get(rows[fi as int], i as u32)->Some_0 != 0 {
                assert(lo == fi && hi == i);
            } else {
                assert(mget(r2.ff, i, j) == mget(r1.ff, i, j));
                if 0 <= lo < t.len() {
                    assert(t[lo] == rows[lo]);
                } else if lo == fi {
                    // the pair is rooted in the last row but was not written:
                    // either out of numeric range or a zero/absent entry
                    assert(hi >= fi);
                }
            }
        }
    }
}

} // verus!

verus! {

/// The mirrored file→file table reads the same in both directions.
pub open spec fn rows_symmetric(rows: Seq<Seq<(u32, u32)>>) -> bool {
    forall|i: int, j: int|
        0 <= i < rows.len() && 0 <= j < rows.len() ==> #[trigger] assoc_get(rows[i], j as u32)
            == assoc_get(rows[j], i as u32)
}

/// Names that survive the writing and reloading of a snapshot verbatim:
/// nonempty and already trimmed.
pub open spec fn line_safe_names(names: Seq<Seq<char>>) -> bool {
    forall|i: int|
        0 <= i < names.len() ==> (#[trigger] names[i]).len() > 0 && trim_of(names[i]) == names[i]
}

/// Round trip: reading back the rendered snapshot lines of a well-formed
/// database reproduces its name lists exactly, skips nothing, and stores
/// exactly the non-zero weights of both tables. Names must be nonempty and
/// trimmed — an empty author (a bare `Author:` line) or a name with
/// surrounding whitespace would not survive the line format — and the
/// file→file table mirrored, as every constructor of this crate keeps it.
pub proof fn lemma_snapshot_round_trip(db: &ColabNetDatabase)
    requires
        db.wf(),
        line_safe_names(views_of(db.authors@)),
        line_safe_names(views_of(db.files@)),
        rows_symmetric(rows_of(db.files_to_files@)),
    ensures
        ({
            let st = load_fold(snapshot_model(db), true);
            &&& st.authors == views_of(db.authors@)
            &&& st.files == views_of(db.files@)
            &&& st.skipped == 0
            &&& forall|fi: int, a: u32|
                mget(#[trigger] st.fa, fi, a as int) == (if db.fa_at(fi, a) is Some && db.fa_at(
                    fi,
                    a,
                )->Some_0 != 0 {
                    db.fa_at(fi, a)
                } else {
                    None
                })
            &&& forall|fi: int, g: u32|
                mget(#[trigger] st.ff, fi, g as int) == (if db.ff_at(fi, g) is Some && db.ff_at(
                    fi,
                    g,
                )->Some_0 != 0 {
                    db.ff_at(fi, g)
                } else {
                    None
                })
        }),
{
    let av = views_of(db.authors@);
    let fv = views_of(db.files@);
    let farows = rows_of(db.files_to_authors@);
    let ffrows = rows_of(db.files_to_files@);
    let blk = seq![Seq::<char>::empty()];
    let model = snapshot_model(db);
    lemma_fold_is_run(model, true);
    // peel the six sections with the run-append law
    let x1 = av + blk;
    let x2 = x1 + fv;
    let x3 = x2 + blk;
    let x4 = x3 + farows_lines(db);
    let x5 = x4 + blk;
    assert(model == x5 + ff_lines(ffrows));
    lemma_run_append(load_init(), x5, ff_lines(ffrows), true);
    lemma_run_append(load_init(), x4, blk, true);
    lemma_run_append(load_init(), x3, farows_lines(db), true);
    lemma_run_append(load_init(), x2, blk, true);
    lemma_run_append(load_init(), x1, fv, true);
    lemma_run_append(load_init(), av, blk, true);
    // authors
    assert(load_init().authors + av =~= av);
    lemma_run_author_names(load_init(), av, true);
    let s1 = load_run(load_init(), av, true);
    // blank: to the files section
    assert(blk.last() =~= Seq::<char>::empty());
    assert(blk.drop_last() =~= Seq::<Seq<char>>::empty());
    let s2 = load_run(s1, blk, true);
    assert(load_run(s1, blk.drop_last(), true) == s1);
    assert(s2 == load_step(s1, blk.last(), true));
    assert(s2.mode == 1);
    // files
    assert(s2.files + fv =~= fv);
    lemma_run_file_names(s2, fv, true);
    let s3 = load_run(s2, fv, true);
    // blank: to the file→author section
    let s4 = load_run(s3, blk, true);
    assert(load_run(s3, blk.drop_last(), true) == s3);
    assert(s4 == load_step(s3, blk.last(), true));
    assert(s4.mode == 2);
    assert(s4.files == fv);
    assert(s4.authors == av);
    // file→author edges
    lemma_run_fa_section(s4, farows, true);
    let s5 = load_run(s4, farows_lines(db), true);
    // blank: to the file→file section
    let s6 = load_run(s5, blk, true);
    assert(load_run(s5, blk.drop_last(), true) == s5);
    assert(s6 == load_step(s5, blk.last(), true));
    assert(s6.mode == 3);
    // file→file edges
    lemma_run_ff_section(s6, ffrows);
    let s7 = load_run(s6, ff_lines(ffrows), true);
    assert(load_fold(model, true) == s7);
    assert(s7.skipped == 0);
    assert forall|fi: int, a: u32|
        mget(#[trigger] s7.fa, fi, a as int) == (if db.fa_at(fi, a) is Some && db.fa_at(
            fi,
            a,
        )->Some_0 != 0 {
            db.fa_at(fi, a)
        } else {
            None
        }) by {
        assert(mget(s7.fa, fi, a as int) == mget(s5.fa, fi, a as int));
        assert((a as int) as u32 == a);
        if 0 <= fi < farows.len() {
        } else {
            assert(db.fa_at(fi, a) is None);
        }
    }
    assert forall|fi: int, g: u32|
        mget(#[trigger] s7.ff, fi, g as int) == (if db.ff_at(fi, g) is Some && db.ff_at(
            fi,
            g,
        )->Some_0 != 0 {
            db.ff_at(fi, g)
        } else {
            None
        }) by {
        let i = fi;
        let j = g as int;
        let lo = if i <= j { i } else { j };
        let hi = if i <= j { j } else { i };
        assert((g as int) as u32 == g);
        if 0 <= fi < ffrows.len() {
            if lo == fi {
            } else {
                // the pair is rooted in the partner's row: same value by
                // the table's symmetry
                if 0 <= lo < ffrows.len() && hi <= u32::MAX {
                    assert(hi == fi);
                    assert(assoc_get(ffrows[lo], hi as u32) == assoc_get(
                        ffrows[hi],
                        lo as u32,
                    ));
                    assert(lo as u32 == g);
                }
            }
        } else {
            assert(db.ff_at(fi, g) is None);
            if 0 <= lo < ffrows.len() && hi <= u32::MAX {
                // hi is an id outside the table here: no row stores it
                assert(lo == g as int && hi == fi);
                assert(hi >= ffrows.len());
                assert forall|j2: int|
                    0 <= j2 < ffrows[lo].len() implies (#[trigger] ffrows[lo][j2]).0
                    != hi as u32 by {
                    assert((ffrows[lo][j2].0 as nat) < db.files@.len());
                }
                crate::assoc::lemma_assoc_get_absent(ffrows[lo], hi as u32);
            }
        }
    }
}

/// The rendered file→author section of a database.
pub open spec fn farows_lines(db: &ColabNetDatabase) -> Seq<Seq<char>> {
    fa_lines(rows_of(db.files_to_authors@))
}

} // verus!

verus! {

/// Joining splits off its first line.
proof fn lemma_join_left(ls: Seq<Seq<char>>)
    requires
        ls.len() > 0,
    ensures
        join_lines(ls) == ls[0] + seq!['\n'] + join_lines(ls.skip(1)),
    decreases ls.len(),
{
    let nl = seq!['\n'];
    if ls.len() == 1 {
        assert(ls.drop_last() =~= Seq::<Seq<char>>::empty());
        assert(join_lines(ls.drop_last()) == Seq::<char>::empty());
        assert(ls.skip(1) =~= Seq::<Seq<char>>::empty());
        assert(join_lines(ls) == join_lines(ls.drop_last()) + ls.last() + nl);
        assert(join_lines(ls) =~= ls[0] + nl + join_lines(ls.skip(1)));
    } else {
        let dl = ls.drop_last();
        lemma_join_left(dl);
        assert(ls.skip(1).drop_last() =~= dl.skip(1));
        assert(ls.skip(1).len() > 0);
        assert(ls.skip(1).last() == ls.last());
        assert(join_lines(ls.skip(1)) == join_lines(dl.skip(1)) + ls.last() + nl);
        assert(dl[0] == ls[0]);
        assert(join_lines(ls) == (dl[0] + nl + join_lines(dl.skip(1))) + ls.last() + nl);
        assert(join_lines(ls) =~= ls[0] + nl + join_lines(ls.skip(1)));
    }
}

/// A line that the text format carries verbatim: no newline inside, and no
/// carriage return at its end.
pub open spec fn line_text_safe(l: Seq<char>) -> bool {
    &&& forall|j: int| 0 <= j < l.len() ==> #[trigger] l[j] != '\n'
    &&& (l.len() > 0 ==> l[l.len() - 1] != '\r')
}

/// Splitting joined text-safe lines gives the lines back.
pub proof fn lemma_lines_of_join(ls: Seq<Seq<char>>)
    requires
        forall|i: int| 0 <= i < ls.len() ==> line_text_safe(#[trigger] ls[i]),
    ensures
        lines_of(join_lines(ls)) == ls,
    decreases ls.len(),
{
    if ls.len() == 0 {
        assert(join_lines(ls) == Seq::<char>::empty());
        assert(lines_of(join_lines(ls)) =~= ls);
    } else {
        lemma_join_left(ls);
        let nl = seq!['\n'];
        let l0 = ls[0];
        let s = join_lines(ls);
        assert(s == l0 + nl + join_lines(ls.skip(1)));
        assert(s.len() > 0) by {
            assert(s.len() == l0.len() + 1 + join_lines(ls.skip(1)).len());
        }
        crate::text::lemma_idx_of(s, '\n');
        let k = crate::text::idx_of(s, '\n');
        assert(k == l0.len()) by {
            assert(s[l0.len() as int] == '\n') by {
                assert((l0 + nl)[l0.len() as int] == '\n');
            }
            if k < l0.len() {
                assert(s[k as int] == l0[k as int]);
                assert(line_text_safe(l0));
            }
            if k > l0.len() {
                assert(s[l0.len() as int] != '\n');
            }
        }
        assert(k < s.len());
        assert(s.take(k as int) =~= l0);
        assert(crate::text::strip_cr(l0) == l0) by {
            assert(line_text_safe(l0));
        }
        assert(s.skip(k as int + 1) =~= join_lines(ls.skip(1)));
        assert(forall|i: int|
            0 <= i < ls.skip(1).len() ==> line_text_safe(#[trigger] ls.skip(1)[i]));
        lemma_lines_of_join(ls.skip(1));
        assert(lines_of(s) == seq![l0] + lines_of(join_lines(ls.skip(1))));
        assert(lines_of(s) =~= ls);
    }
}

/// Every character of an edge line is a digit or a space, and its last is a
/// digit.
proof fn lemma_edge_line_safe(x: nat, y: nat, z: nat)
    ensures
        line_text_safe(edge_line(x, y, z)),
        edge_line(x, y, z).len() > 0,
{
    let a = crate::text::dec_rep(x);
    let b = crate::text::dec_rep(y);
    let c = crate::text::dec_rep(z);
    crate::text::lemma_dec_rep_digits(x);
    crate::text::lemma_dec_rep_digits(y);
    crate::text::lemma_dec_rep_digits(z);
    let s = edge_line(x, y, z);
    assert forall|j: int| 0 <= j < s.len() implies #[trigger] s[j] != '\n' by {
        if j < a.len() {
            assert(s[j] == a[j]);
            assert(crate::text::is_digit(a[j]));
        } else if j == a.len() {
            assert(s[j] == ' ');
        } else if j < a.len() + 1 + b.len() {
            assert(s[j] == b[j - a.len() - 1]);
            assert(crate::text::is_digit(b[j - a.len() - 1]));
        } else if j == a.len() + 1 + b.len() {
            assert(s[j] == ' ');
        } else {
            assert(s[j] == c[j - a.len() - b.len() - 2]);
            assert(crate::text::is_digit(c[j - a.len() - b.len() - 2]));
        }
    }
    assert(s[s.len() - 1] == c[c.len() - 1]);
    assert(crate::text::is_digit(c[c.len() - 1]));
}

/// A trim fixed point starts and ends with non-whitespace.
proof fn lemma_trim_fixed_point(l: Seq<char>)
    ensures
        trim_of(l) == l && l.len() > 0 ==> !crate::text::is_ws(l[0]) && !crate::text::is_ws(
            l[l.len() - 1],
        ),
{
    lemma_trim_front_le(l);
    lemma_trim_back_le(crate::text::trim_front(l));
    if trim_of(l) == l && l.len() > 0 {
        if crate::text::is_ws(l[0]) {
            assert(crate::text::trim_front(l).len() < l.len());
            assert(trim_of(l).len() < l.len());
        }
        if crate::text::is_ws(l[l.len() - 1]) {
            if crate::text::trim_front(l).len() < l.len() {
                assert(trim_of(l).len() < l.len());
            } else {
                lemma_trim_front_id(l);
                assert(crate::text::trim_front(l) == l);
                assert(crate::text::trim_back(l).len() < l.len());
            }
        }
    }
}

proof fn lemma_trim_front_le(l: Seq<char>)
    ensures
        crate::text::trim_front(l).len() <= l.len(),
        l.len() > 0 && crate::text::is_ws(l[0]) ==> crate::text::trim_front(l).len() < l.len(),
    decreases l.len(),
{
    if l.len() > 0 && crate::text::is_ws(l[0]) {
        lemma_trim_front_le(l.skip(1));
    }
}

proof fn lemma_trim_back_le(l: Seq<char>)
    ensures
        crate::text::trim_back(l).len() <= l.len(),
        l.len() > 0 && crate::text::is_ws(l[l.len() - 1]) ==> crate::text::trim_back(l).len()
            < l.len(),
    decreases l.len(),
{
    if l.len() > 0 && crate::text::is_ws(l[l.len() - 1]) {
        lemma_trim_back_le(l.drop_last());
    }
}

proof fn lemma_trim_front_id(l: Seq<char>)
    requires
        crate::text::trim_front(l).len() == l.len(),
    ensures
        crate::text::trim_front(l) == l,
{
    lemma_trim_front_le(l);
    if l.len() > 0 && crate::text::is_ws(l[0]) {
        assert(false);
    }
}

/// Full-text round trip: reading the rendered snapshot text of a
/// well-formed database — what `read_snapshot` does with `write_snapshot`'s
/// output — reproduces the name lists, skips nothing, and stores exactly
/// the non-zero weights. Beyond the line-level law, names must not contain
/// a newline, which would break the line format.
pub proof fn lemma_write_read_round_trip(db: &ColabNetDatabase)
    requires
        db.wf(),
        line_safe_names(views_of(db.authors@)),
        line_safe_names(views_of(db.files@)),
        forall|i: int, j: int|
            0 <= i < db.authors@.len() && 0 <= j < views_of(db.authors@)[i].len()
                ==> #[trigger] views_of(db.authors@)[i][j] != '\n',
        forall|i: int, j: int|
            0 <= i < db.files@.len() && 0 <= j < views_of(db.files@)[i].len()
                ==> #[trigger] views_of(db.files@)[i][j] != '\n',
        rows_symmetric(rows_of(db.files_to_files@)),
    ensures
        ({
            let st = load_fold(lines_of(join_lines(snapshot_model(db))), true);
            &&& st.authors == views_of(db.authors@)
            &&& st.files == views_of(db.files@)
            &&& st.skipped == 0
            &&& forall|fi: int, a: u32|
                mget(#[trigger] st.fa, fi, a as int) == (if db.fa_at(fi, a) is Some && db.fa_at(
                    fi,
                    a,
                )->Some_0 != 0 {
                    db.fa_at(fi, a)
                } else {
                    None
                })
            &&& forall|fi: int, g: u32|
                mget(#[trigger] st.ff, fi, g as int) == (if db.ff_at(fi, g) is Some && db.ff_at(
                    fi,
                    g,
                )->Some_0 != 0 {
                    db.ff_at(fi, g)
                } else {
                    None
                })
        }),
{
    let model = snapshot_model(db);
    assert forall|i: int| 0 <= i < model.len() implies line_text_safe(#[trigger] model[i]) by {
        lemma_model_line_safe(db, i);
    }
    lemma_lines_of_join(model);
    lemma_snapshot_round_trip(db);
}

/// Each line of the rendered snapshot is text-safe.
proof fn lemma_model_line_safe(db: &ColabNetDatabase, i: int)
    requires
        db.wf(),
        line_safe_names(views_of(db.authors@)),
        line_safe_names(views_of(db.files@)),
        forall|i2: int, j: int|
            0 <= i2 < db.authors@.len() && 0 <= j < views_of(db.authors@)[i2].len()
                ==> #[trigger] views_of(db.authors@)[i2][j] != '\n',
        forall|i2: int, j: int|
            0 <= i2 < db.files@.len() && 0 <= j < views_of(db.files@)[i2].len()
                ==> #[trigger] views_of(db.files@)[i2][j] != '\n',
        0 <= i < snapshot_model(db).len(),
    ensures
        line_text_safe(snapshot_model(db)[i]),
{
    let av = views_of(db.authors@);
    let fv = views_of(db.files@);
    let fal = fa_lines(rows_of(db.files_to_authors@));
    let ffl = ff_lines(rows_of(db.files_to_files@));
    let l = snapshot_model(db)[i];
    let n1 = av.len() as int;
    let n2 = n1 + 1 + fv.len();
    let n3 = n2 + 1 + fal.len();
    if i < n1 {
        assert(l == av[i]);
        lemma_trim_fixed_point(av[i]);
        assert(line_text_safe(av[i]));
    } else if i == n1 {
        assert(l =~= Seq::<char>::empty());
    } else if i < n1 + 1 + fv.len() {
        assert(l == fv[i - n1 - 1]);
        lemma_trim_fixed_point(fv[i - n1 - 1]);
        assert(line_text_safe(fv[i - n1 - 1]));
    } else if i == n2 {
        assert(l =~= Seq::<char>::empty());
    } else if i < n2 + 1 + fal.len() {
        assert(l == fal[i - n2 - 1]);
        lemma_fa_lines_safe(rows_of(db.files_to_authors@), i - n2 - 1);
    } else if i == n3 {
        assert(l =~= Seq::<char>::empty());
    } else {
        assert(l == ffl[i - n3 - 1]);
        lemma_ff_lines_safe(rows_of(db.files_to_files@), i - n3 - 1);
    }
}

/// Every rendered file→author line is an edge line, hence text-safe.
proof fn lemma_fa_lines_safe(rows: Seq<Seq<(u32, u32)>>, i: int)
    requires
        0 <= i < fa_lines(rows).len(),
    ensures
        line_text_safe(fa_lines(rows)[i]),
    decreases rows.len(),
{
    if rows.len() > 0 {
        let pre = fa_lines(rows.drop_last());
        if i < pre.len() {
            lemma_fa_lines_safe(rows.drop_last(), i);
            assert(fa_lines(rows)[i] == pre[i]);
        } else {
            lemma_fa_row_lines_safe((rows.len() - 1) as nat, rows.last(), i - pre.len());
            assert(fa_lines(rows)[i] == fa_row_lines((rows.len() - 1) as nat, rows.last())[i
                - pre.len()]);
        }
    }
}

proof fn lemma_fa_row_lines_safe(fi: nat, row: Seq<(u32, u32)>, i: int)
    requires
        0 <= i < fa_row_lines(fi, row).len(),
    ensures
        line_text_safe(fa_row_lines(fi, row)[i]),
    decreases row.len(),
{
    if row.len() > 0 {
        let pre = fa_row_lines(fi, row.drop_last());
        if i < pre.len() {
            lemma_fa_row_lines_safe(fi, row.drop_last(), i);
            assert(fa_row_lines(fi, row)[i] == pre[i]);
        } else {
            lemma_edge_line_safe(fi, row.last().0 as nat, row.last().1 as nat);
            assert(fa_row_lines(fi, row)[i] == edge_line(
                fi,
                row.last().0 as nat,
                row.last().1 as nat,
            ));
        }
    }
}

proof fn lemma_ff_lines_safe(rows: Seq<Seq<(u32, u32)>>, i: int)
    requires
        0 <= i < ff_lines(rows).len(),
    ensures
        line_text_safe(ff_lines(rows)[i]),
    decreases rows.len(),
{
    if rows.len() > 0 {
        let pre = ff_lines(rows.drop_last());
        if i < pre.len() {
            lemma_ff_lines_safe(rows.drop_last(), i);
            assert(ff_lines(rows)[i] == pre[i]);
        } else {
            lemma_ff_row_lines_safe((rows.len() - 1) as nat, rows.last(), i - pre.len());
            assert(ff_lines(rows)[i] == ff_row_lines((rows.len() - 1) as nat, rows.last())[i
                - pre.len()]);
        }
    }
}

proof fn lemma_ff_row_lines_safe(fi: nat, row: Seq<(u32, u32)>, i: int)
    requires
        0 <= i < ff_row_lines(fi, row).len(),
    ensures
        line_text_safe(ff_row_lines(fi, row)[i]),
    decreases row.len(),
{
    if row.len() > 0 {
        let pre = ff_row_lines(fi, row.drop_last());
        if i < pre.len() {
            lemma_ff_row_lines_safe(fi, row.drop_last(), i);
            assert(ff_row_lines(fi, row)[i] == pre[i]);
        } else {
            lemma_edge_line_safe(fi, row.last().0 as nat, row.last().1 as nat);
            assert(ff_row_lines(fi, row)[i] == edge_line(
                fi,
                row.last().0 as nat,
                row.last().1 as nat,
            ));
        }
    }
}

} // verus!

verus! {

/// What a nonblank line denotes in the file→author section of a reader with
/// the given list sizes: the addressed cell and value, or nothing when the
/// line is malformed.
pub open spec fn fa_edge_of(line: Seq<char>, nfiles: nat, nauthors: nat) -> Option<
    ((int, int), u32),
> {
    let toks = tokens_of(line);
    if toks.len() >= 3 && parse_u32_spec(toks[0]) is Some && parse_u32_spec(toks[1]) is Some
        && parse_u32_spec(toks[2]) is Some && (parse_u32_spec(toks[0])->Some_0 as nat) < nfiles
        && (parse_u32_spec(toks[1])->Some_0 as nat) < nauthors {
        Some(
            (
                (
                    parse_u32_spec(toks[0])->Some_0 as int,
                    parse_u32_spec(toks[1])->Some_0 as int,
                ),
                parse_u32_spec(toks[2])->Some_0,
            ),
        )
    } else {
        None
    }
}

/// Line order within the file→author section does not matter: two
/// neighbouring nonblank lines may be exchanged whenever they do not
/// address the same cell, and any reordering of lines with distinct cells
/// is a chain of such exchanges.
pub proof fn lemma_fa_lines_commute(st: LoadState, l1: Seq<char>, l2: Seq<char>, load_ff: bool)
    requires
        !st.stopped,
        st.mode == 2,
        l1.len() > 0,
        l2.len() > 0,
        match (
            fa_edge_of(l1, st.files.len(), st.authors.len()),
            fa_edge_of(l2, st.files.len(), st.authors.len()),
        ) {
            (Some(e1), Some(e2)) => e1.0 != e2.0,
            _ => true,
        },
    ensures
        load_run(st, seq![l1, l2], load_ff) == load_run(st, seq![l2, l1], load_ff),
{
    let a = seq![l1, l2];
    let b = seq![l2, l1];
    assert(a.drop_last() =~= seq![l1]);
    assert(b.drop_last() =~= seq![l2]);
    assert(a.last() == l2);
    assert(b.last() == l1);
    assert(seq![l1].drop_last() =~= Seq::<Seq<char>>::empty());
    assert(seq![l2].drop_last() =~= Seq::<Seq<char>>::empty());
    assert(load_run(st, seq![l1].drop_last(), load_ff) == st);
    assert(load_run(st, seq![l1], load_ff) == load_step(st, l1, load_ff));
    assert(load_run(st, seq![l2], load_ff) == load_step(st, l2, load_ff));
    assert(load_run(st, a, load_ff) == load_step(load_step(st, l1, load_ff), l2, load_ff));
    assert(load_run(st, b, load_ff) == load_step(load_step(st, l2, load_ff), l1, load_ff));
    let e1 = fa_edge_of(l1, st.files.len(), st.authors.len());
    let e2 = fa_edge_of(l2, st.files.len(), st.authors.len());
    let s1 = load_step(st, l1, load_ff);
    let s2 = load_step(st, l2, load_ff);
    assert(s1.files == st.files && s1.authors == st.authors && s1.mode == st.mode
        && !s1.stopped);
    assert(s2.files == st.files && s2.authors == st.authors && s2.mode == st.mode
        && !s2.stopped);
    match (e1, e2) {
        (Some(p1), Some(p2)) => {
            assert(load_step(s1, l2, load_ff).fa =~= load_step(s2, l1, load_ff).fa);
            assert(load_step(s1, l2, load_ff) == load_step(s2, l1, load_ff));
        },
        _ => {
            assert(load_step(s1, l2, load_ff) == load_step(s2, l1, load_ff));
        },
    }
}

/// What a nonblank line denotes in the file→file section: the addressed
/// unordered pair and count, or nothing when malformed.
pub open spec fn ff_edge_of(line: Seq<char>, nfiles: nat) -> Option<((int, int), u32)> {
    let toks = tokens_of(line);
    if toks.len() == 3 && parse_u32_spec(toks[0]) is Some && parse_u32_spec(toks[1]) is Some
        && parse_u32_spec(toks[2]) is Some && (parse_u32_spec(toks[0])->Some_0 as nat) < nfiles
        && (parse_u32_spec(toks[1])->Some_0 as nat) < nfiles {
        Some(
            (
                (
                    parse_u32_spec(toks[0])->Some_0 as int,
                    parse_u32_spec(toks[1])->Some_0 as int,
                ),
                parse_u32_spec(toks[2])->Some_0,
            ),
        )
    } else {
        None
    }
}

/// The same exchange law for the file→file section: lines addressing
/// different unordered pairs may be swapped.
pub proof fn lemma_ff_lines_commute(st: LoadState, l1: Seq<char>, l2: Seq<char>)
    requires
        !st.stopped,
        st.mode == 3,
        l1.len() > 0,
        l2.len() > 0,
        match (ff_edge_of(l1, st.files.len()), ff_edge_of(l2, st.files.len())) {
            (Some(e1), Some(e2)) => e1.0 != e2.0 && e1.0 != (e2.0.1, e2.0.0),
            _ => true,
        },
    ensures
        load_run(st, seq![l1, l2], true) == load_run(st, seq![l2, l1], true),
{
    let a = seq![l1, l2];
    let b = seq![l2, l1];
    assert(a.drop_last() =~= seq![l1]);
    assert(b.drop_last() =~= seq![l2]);
    assert(a.last() == l2);
    assert(b.last() == l1);
    assert(seq![l1].drop_last() =~= Seq::<Seq<char>>::empty());
    assert(seq![l2].drop_last() =~= Seq::<Seq<char>>::empty());
    assert(load_run(st, seq![l1].drop_last(), true) == st);
    assert(load_run(st, seq![l1], true) == load_step(st, l1, true));
    assert(load_run(st, seq![l2], true) == load_step(st, l2, true));
    assert(load_run(st, a, true) == load_step(load_step(st, l1, true), l2, true));
    assert(load_run(st, b, true) == load_step(load_step(st, l2, true), l1, true));
    let e1 = ff_edge_of(l1, st.files.len());
    let e2 = ff_edge_of(l2, st.files.len());
    let s1 = load_step(st, l1, true);
    let s2 = load_step(st, l2, true);
    assert(s1.files == st.files && s1.mode == st.mode && !s1.stopped);
    assert(s2.files == st.files && s2.mode == st.mode && !s2.stopped);
    match (e1, e2) {
        (Some(p1), Some(p2)) => {
            assert(load_step(s1, l2, true).ff =~= load_step(s2, l1, true).ff);
            assert(load_step(s1, l2, true) == load_step(s2, l1, true));
        },
        _ => {
            assert(load_step(s1, l2, true) == load_step(s2, l1, true));
        },
    }
}

} // verus!
