//! The log as a whole: its lines, and the entries they hold.

use vstd::prelude::*;
use crate::codec::{decode_line, DecodeError, Entry, EntryView};
use crate::text::chars_of;

verus! {

/// Why the log gave no entries.
#[derive(Clone, Copy, Debug, PartialEq, Eq, Structural)]
pub enum LoadError {
    /// There is no log yet: the ledger is empty.
    NoHistory,
    /// The line with this number (from 1) holds no entry.
    CorruptLine { line_number: usize, cause: DecodeError },
}

/// The pieces of a text between the occurrences of `sep`; the last one is
/// what follows the last `sep`, empty if the text ends with one.
pub open spec fn pieces_of(s: Seq<char>, sep: char) -> Seq<Seq<char>>
    decreases s.len(),
{
    if s.len() == 0 {
        seq![Seq::empty()]
    } else {
        let p = pieces_of(s.drop_last(), sep);
        if s.last() == sep {
            p.push(Seq::empty())
        } else {
            p.update(p.len() - 1, p.last().push(s.last()))
        }
    }
}

/// The lines of a text, split at each newline.
pub open spec fn lines_of(s: Seq<char>) -> Seq<Seq<char>> {
    pieces_of(s, '\n')
}

pub proof fn lemma_pieces_of_len(s: Seq<char>, sep: char)
    ensures
        pieces_of(s, sep).len() >= 1,
    decreases s.len(),
{
    if s.len() > 0 {
        lemma_pieces_of_len(s.drop_last(), sep);
    }
}

/// The entries of the non-empty lines, in order, or the first line that holds none.
pub open spec fn load_lines(ls: Seq<Seq<char>>) -> Result<Seq<EntryView>, LoadError>
    decreases ls.len(),
{
    if ls.len() == 0 {
        Ok(Seq::empty())
    } else {
        match load_lines(ls.drop_last()) {
            Err(e) => Err(e),
            Ok(es) => if ls.last().len() == 0 {
                Ok(es)
            } else {
                match decode_line(ls.last()) {
                    Ok(e) => Ok(es.push(e)),
                    Err(c) => Err(LoadError::CorruptLine { line_number: ls.len() as usize, cause: c }),
                }
            },
        }
    }
}

/// Once a prefix of the lines fails, the whole load fails the same way.
proof fn lemma_load_error_kept(ls: Seq<Seq<char>>, m: int)
    requires
        0 <= m <= ls.len(),
        load_lines(ls.subrange(0, m)) is Err,
    ensures
        load_lines(ls) == load_lines(ls.subrange(0, m)),
    decreases ls.len(),
{
    if m == ls.len() {
        assert(ls.subrange(0, m) =~= ls);
    } else {
        let d = ls.drop_last();
        assert(d.subrange(0, m) =~= ls.subrange(0, m));
        lemma_load_error_kept(d, m);
    }
}

/// What the log text holds.
pub open spec fn load_text(s: Seq<char>) -> Result<Seq<EntryView>, LoadError> {
    load_lines(lines_of(s))
}

pub open spec fn views_of_lines(ls: Seq<Vec<char>>) -> Seq<Seq<char>> {
    ls.map_values(|l: Vec<char>| l@)
}

pub open spec fn views_of_entries(es: Seq<Entry>) -> Seq<EntryView> {
    es.map_values(|e: Entry| e@)
}

/// The pieces of `s` between the occurrences of `sep`.
pub fn split_chars(s: &Vec<char>, sep: char) -> (r: Vec<Vec<char>>)
    ensures
        views_of_lines(r@) == pieces_of(s@, sep),
{
    let mut lines: Vec<Vec<char>> = Vec::new();
    let mut cur: Vec<char> = Vec::new();
    let mut i: usize = 0;
    assert(views_of_lines(lines@).push(cur@) =~= pieces_of(s@.subrange(0, 0), sep));
    while i < s.len()
        invariant
            i <= s@.len(),
            views_of_lines(lines@).push(cur@) == pieces_of(s@.subrange(0, i as int), sep),
        decreases s@.len() - i,
    {
        let c = s[i];
        let ghost before = s@.subrange(0, i as int);
        assert(s@.subrange(0, i as int + 1).drop_last() =~= before);
        proof {
            lemma_pieces_of_len(before, sep);
        }
        if c == sep {
            lines.push(cur);
            cur = Vec::new();
            assert(views_of_lines(lines@).push(cur@) =~= pieces_of(s@.subrange(0, i as int + 1), sep));
        } else {
            cur.push(c);
            assert(views_of_lines(lines@).push(cur@) =~= pieces_of(s@.subrange(0, i as int + 1), sep));
        }
        i = i + 1;
    }
    assert(s@.subrange(0, i as int) =~= s@);
    lines.push(cur);
    assert(views_of_lines(lines@) =~= pieces_of(s@, sep));
    lines
}

/// Reads every entry of the log text, in file order; empty lines are passed
/// over, and the first line that holds no entry fails the whole load.
pub fn load_entries(text: &str) -> (r: Result<Vec<Entry>, LoadError>)
    ensures
        r matches Ok(es) ==> load_text(text@) == Ok::<Seq<EntryView>, LoadError>(views_of_entries(es@)),
        r matches Err(e) ==> load_text(text@) == Err::<Seq<EntryView>, LoadError>(e),
{
    let chars = chars_of(text);
    let lines = split_chars(&chars, '\n');
    let ghost ls = views_of_lines(lines@);
    let mut out: Vec<Entry> = Vec::new();
    let mut k: usize = 0;
    assert(ls.subrange(0, 0) =~= Seq::<Seq<char>>::empty());
    assert(views_of_entries(out@) =~= Seq::<EntryView>::empty());
    while k < lines.len()
        invariant
            k <= lines@.len(),
            ls == views_of_lines(lines@),
            ls == lines_of(chars@),
            chars@ == text@,
            load_lines(ls.subrange(0, k as int)) == Ok::<Seq<EntryView>, LoadError>(views_of_entries(out@)),
        decreases lines@.len() - k,
    {
        let line = &lines[k];
        assert(ls.subrange(0, k as int + 1).drop_last() =~= ls.subrange(0, k as int));
        assert(ls.subrange(0, k as int + 1).last() == line@);
        if line.len() > 0 {
            match Entry::decode_chars(line) {
                Ok(e) => {
                    let ghost prev = views_of_entries(out@);
                    let ghost ev = e@;
                    out.push(e);
                    assert(views_of_entries(out@) =~= prev.push(ev));
                },
                Err(c) => {
                    proof {
                        lemma_load_error_kept(ls, k + 1);
                    }
                    return Err(LoadError::CorruptLine { line_number: k + 1, cause: c });
                },
            }
        }
        k = k + 1;
    }
    assert(ls.subrange(0, k as int) =~= ls);
    Ok(out)
}

} // verus!

verus! {

/// Reads the log, if there is one: without a log there is no history.
pub fn load_log(contents: Option<&str>) -> (r: Result<Vec<Entry>, LoadError>)
    ensures
        contents is None ==> r == Err::<Vec<Entry>, LoadError>(LoadError::NoHistory),
        contents matches Some(text) ==> (match r {
            Ok(es) => load_text(text@) == Ok::<Seq<EntryView>, LoadError>(views_of_entries(es@)),
            Err(e) => load_text(text@) == Err::<Seq<EntryView>, LoadError>(e),
        }),
{
    match contents {
        None => Err(LoadError::NoHistory),
        Some(text) => load_entries(text),
    }
}

/// The entries to report on: a missing log counts as an empty ledger, any
/// other failure stands.
pub fn entries_or_empty(loaded: Result<Vec<Entry>, LoadError>) -> (r: Result<Vec<Entry>, LoadError>)
    ensures
        loaded matches Err(LoadError::NoHistory) ==> r matches Ok(es) && es@.len() == 0,
        loaded matches Err(LoadError::CorruptLine { line_number, cause }) ==> r == Err::<Vec<Entry>, LoadError>(
            LoadError::CorruptLine { line_number, cause },
        ),
        loaded matches Ok(es) ==> r matches Ok(out) && out@ == es@,
{
    match loaded {
        Err(LoadError::NoHistory) => Ok(Vec::new()),
        other => other,
    }
}

} // verus!
