//! Log parsing: turns the raw text of a commit-log dump into an ordered
//! stream of events — author switches, per-file change records, and commit
//! boundaries — recognizing statistics lines the way the log format prints
//! them.
use vstd::prelude::*;

use crate::normalize::{normalize_fname, spec_normalize, wf_rename};
use crate::text::{
    find_arrow_or_len, find_char_or_len, has_prefix, idx_of, lemma_idx_of, lemma_lines_no_newline,
    lines_of, parse_u32_spec, parse_u32_str, split_lines, split_ws, tokens_of, trim_exec, trim_of,
    views_of,
};

verus! {

/// One event from scanning the commit log, in input order.
pub enum LogEvent {
    /// An `Author:` line: the author to charge for the change lines after it.
    Author(String),
    /// A statistics line: one file changed, with its change count.
    Change { file: String, changes: u32 },
    /// A `commit` line: the boundary between commit groups.
    Boundary,
}

/// The mathematical image of an event: the same three shapes over character
/// sequences.
pub enum EventModel {
    Author(Seq<char>),
    Change { file: Seq<char>, changes: u32 },
    Boundary,
}

impl LogEvent {
    pub open spec fn model(&self) -> EventModel {
        match self {
            LogEvent::Author(s) => EventModel::Author(s@),
            LogEvent::Change { file, changes } => EventModel::Change {
                file: file@,
                changes: *changes,
            },
            LogEvent::Boundary => EventModel::Boundary,
        }
    }
}

/// The models of a sequence of events.
pub open spec fn models_of(v: Seq<LogEvent>) -> Seq<EventModel> {
    Seq::new(v.len(), |i: int| v[i].model())
}

/// The statistics-line shape: exactly one leading space, a non-space second
/// character, and a `|` somewhere after those two characters.
pub open spec fn is_stat_line(s: Seq<char>) -> bool {
    s.len() >= 3 && s[0] == ' ' && s[1] != ' ' && exists|i: int| 2 <= i < s.len() && s[i] == '|'
}

/// Relies on `regex::Regex::new` and `regex::Regex::is_match`: on a line
/// without `\n`, the anchored pattern `^ [^ ].*\|` matches exactly when the
/// line starts with one space, then a non-space character, then holds a `|`
/// later on. `new` cannot fail on this fixed pattern.
#[verifier::external_body]
fn stat_line_matches(line: &str) -> (r: bool)
    requires
        forall|i: int| 0 <= i < line@.len() ==> line@[i] != '\n',
    ensures
        r == is_stat_line(line@),
{
    regex::Regex::new("^ [^ ].*\\|").unwrap().is_match(line)
}

/// What one line contributes to the event stream:
/// - a line starting with `Author:` switches the author to the trimmed text
///   after that first colon (`Author` holds no colon, so the one at index 6
///   is the first);
/// - a statistics line yields a change record: the text before the first `|`,
///   trimmed and rename-normalized, and the first whitespace-delimited token
///   after the `|` read as a number, 0 when absent or unparsable (a rename
///   notation out of `wf_rename`'s contract is kept verbatim);
/// - a line starting with `commit` is a commit boundary;
/// - every other line says nothing.
pub open spec fn line_event(line: Seq<char>) -> Option<EventModel> {
    if "Author:"@.is_prefix_of(line) {
        Some(EventModel::Author(trim_of(line.skip(7))))
    } else if is_stat_line(line) {
        let p = idx_of(line, '|') as int;
        let left = trim_of(line.take(p));
        let file = if wf_rename(left) {
            spec_normalize(left)
        } else {
            left
        };
        let right = line.skip(p + 1);
        let toks = tokens_of(right);
        let changes = if toks.len() == 0 {
            0u32
        } else {
            match parse_u32_spec(toks[0]) {
                Some(v) => v,
                None => 0u32,
            }
        };
        Some(EventModel::Change { file, changes })
    } else if "commit"@.is_prefix_of(line) {
        Some(EventModel::Boundary)
    } else {
        None
    }
}

/// The events of a line sequence, in order.
pub open spec fn parse_lines(ls: Seq<Seq<char>>) -> Seq<EventModel>
    decreases ls.len(),
{
    if ls.len() == 0 {
        Seq::empty()
    } else {
        match line_event(ls[0]) {
            Some(e) => seq![e] + parse_lines(ls.skip(1)),
            None => parse_lines(ls.skip(1)),
        }
    }
}

/// The event stream of a whole log text.
pub open spec fn spec_parse_log(text: Seq<char>) -> Seq<EventModel> {
    parse_lines(lines_of(text))
}

pub proof fn lemma_parse_lines_push(ls: Seq<Seq<char>>, x: Seq<char>)
    ensures
        parse_lines(ls.push(x)) == parse_lines(ls) + (match line_event(x) {
            Some(e) => seq![e],
            None => Seq::<EventModel>::empty(),
        }),
    decreases ls.len(),
{
    if ls.len() == 0 {
        assert(ls.push(x)[0] == x);
        assert(ls.push(x).skip(1) =~= Seq::<Seq<char>>::empty());
        assert(parse_lines(Seq::<Seq<char>>::empty()) == Seq::<EventModel>::empty());
        assert(parse_lines(ls) == Seq::<EventModel>::empty());
        match line_event(x) {
            Some(e) => {
                assert(parse_lines(ls.push(x)) == seq![e] + parse_lines(ls.push(x).skip(1)));
                assert(parse_lines(ls.push(x)) =~= parse_lines(ls) + seq![e]);
            },
            None => {
                assert(parse_lines(ls.push(x)) == parse_lines(ls.push(x).skip(1)));
                assert(parse_lines(ls.push(x)) =~= parse_lines(ls));
            },
        }
    } else {
        assert(ls.push(x)[0] == ls[0]);
        assert(ls.push(x).skip(1) =~= ls.skip(1).push(x));
        lemma_parse_lines_push(ls.skip(1), x);
        match line_event(ls[0]) {
            Some(e) => {
                assert(parse_lines(ls.push(x)) =~= parse_lines(ls) + (match line_event(x) {
                    Some(e2) => seq![e2],
                    None => Seq::<EventModel>::empty(),
                }));
            },
            None => {},
        }
    }
}

/// Normalizes a trimmed file name when its rename notation is well formed,
/// and keeps the text verbatim when it is not.
fn normalize_if_wf(left: &str) -> (r: String)
    ensures
        r@ == (if wf_rename(left@) {
            spec_normalize(left@)
        } else {
            left@
        }),
{
    let n = left.unicode_len();
    let a = find_arrow_or_len(left);
    let has_arr = n >= 2 && a <= n - 2;
    let ibr = find_char_or_len(left, '{');
    let mut wf = true;
    if has_arr && ibr < n {
        let rest = left.substring_char(ibr + 1, n);
        proof {
            assert(rest@ =~= left@.skip(ibr as int + 1));
        }
        let rn = rest.unicode_len();
        let j = find_char_or_len(rest, '}');
        if j >= rn {
            wf = false;
        } else {
            let seg = rest.substring_char(0, j);
            proof {
                assert(seg@ =~= rest@.take(j as int));
            }
            let sn = seg.unicode_len();
            let a2 = find_arrow_or_len(seg);
            wf = sn >= 2 && a2 <= sn - 2;
        }
    }
    if wf {
        normalize_fname(left)
    } else {
        left.to_owned()
    }
}

/// Parses a whole commit-log text into its event stream.
pub fn parse_log(text: &str) -> (events: Vec<LogEvent>)
    ensures
        models_of(events@) == spec_parse_log(text@),
{
    let lines = split_lines(text);
    proof {
        lemma_lines_no_newline(text@);
    }
    let mut events: Vec<LogEvent> = Vec::new();
    let mut li: usize = 0;
    proof {
        assert(views_of(lines@).take(0) =~= Seq::<Seq<char>>::empty());
        assert(models_of(events@) =~= parse_lines(views_of(lines@).take(0)));
    }
    while li < lines.len()
        invariant
            li <= lines.len(),
            views_of(lines@) == lines_of(text@),
            models_of(events@) == parse_lines(views_of(lines@).take(li as int)),
        decreases lines.len() - li,
    {
        let line = &lines[li];
        let ghost lv = line@;
        proof {
            assert(views_of(lines@)[li as int] == lv);
        }
        let n = line.as_str().unicode_len();
        let ghost oldevents = events@;
        if has_prefix(line.as_str(), "Author:") {
            proof {
                reveal_strlit("Author:");
            }
            let rest = line.as_str().substring_char(7, n);
            proof {
                assert(rest@ =~= lv.skip(7));
            }
            let author = trim_exec(rest).to_owned();
            events.push(LogEvent::Author(author));
        } else if stat_line_matches(line.as_str()) {
            proof {
                let w = choose|i: int| 2 <= i < lv.len() && lv[i] == '|';
                lemma_idx_of(lv, '|');
                assert(lv[w] == '|');
                assert(idx_of(lv, '|') < lv.len());
            }
            let p = find_char_or_len(line.as_str(), '|');
            let left_raw = line.as_str().substring_char(0, p);
            proof {
                assert(left_raw@ =~= lv.take(p as int));
            }
            let left = trim_exec(left_raw);
            let file = normalize_if_wf(left);
            let right = line.as_str().substring_char(p + 1, n);
            proof {
                assert(right@ =~= lv.skip(p as int + 1));
            }
            let toks = split_ws(right);
            let changes: u32 = if toks.len() == 0 {
                0
            } else {
                proof {
                    assert(views_of(toks@)[0] == toks@[0]@);
                }
                match parse_u32_str(toks[0].as_str()) {
                    Some(v) => v,
                    None => 0,
                }
            };
            events.push(LogEvent::Change { file, changes });
        } else if has_prefix(line.as_str(), "commit") {
            events.push(LogEvent::Boundary);
        } else {
            proof {
                assert(line_event(lv) is None);
            }
        }
        proof {
            lemma_parse_lines_push(views_of(lines@).take(li as int), lv);
            assert(views_of(lines@).take(li as int).push(lv) =~= views_of(lines@).take(
                li as int + 1,
            ));
            assert(models_of(events@) =~= parse_lines(views_of(lines@).take(li as int + 1)));
        }
        li = li + 1;
    }
    proof {
        assert(views_of(lines@).take(lines@.len() as int) =~= views_of(lines@));
    }
    events
}

} // verus!
