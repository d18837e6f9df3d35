//! Tables of perfect clears as text: one line for each queue, and the names
//! of the files that hold them.

use crate::environment::Environment;
use crate::finesse::{Key, Pair, parse_pair};
use crate::history::History;
use crate::planner::PcTable;
use crate::queue::Queue;
use crate::text::{
    chars_of, decimal, decimal_chars, lemma_split_len, lines, lines_of, push_chars, split,
    split_chars, string_of, trim, trim_chars, views, words, words_of,
};
use vstd::prelude::*;
use vstd::string::StringExecFns;

verus! {

/// What a placement holds: the kind and the keys.
pub type PairRow = (u8, Seq<Key>);

/// What the placements hold, in their order.
pub open spec fn pair_rows(pairs: Seq<Pair>) -> Seq<PairRow> {
    Seq::new(pairs.len(), |i: int| (pairs[i].0, pairs[i].1@))
}

/// The placements that the first `n` words write, or the error of the first
/// word that writes none.
pub open spec fn parse_pairs(words: Seq<Seq<char>>, n: int) -> Result<Seq<PairRow>, Seq<char>>
    decreases n,
{
    if n <= 0 {
        Ok(Seq::empty())
    } else {
        match parse_pairs(words, n - 1) {
            Err(e) => Err(e),
            Ok(rows) => match parse_pair(words[n - 1]) {
                Err(e) => Err(e),
                Ok(row) => Ok(rows.push(row)),
            },
        }
    }
}

/// What a line of a table of perfect clears means. White space around the
/// line does not count; an empty line and a line that starts with `#` hold
/// nothing. Else the line reads `QUEUE = PLACEMENTS`: the queue is what
/// stands before the first `=`, its kinds are the bytes of that text, at most
/// 64; the placements are the words between the first `=` and the second, if
/// there is one. White space around the queue and the placements does not
/// count.
pub open spec fn parse_pc_line(line: Seq<char>) -> Result<Option<(Seq<u8>, Seq<PairRow>)>, Seq<char>> {
    let t = trim(line);
    if t.len() == 0 || t[0] == '#' {
        Ok(None)
    } else {
        let parts = split(t, '=');
        let queue = vstd::utf8::encode_utf8(trim(parts[0]));
        if queue.len() > 64 {
            Err("queue too long"@)
        } else if parts.len() < 2 {
            Err("missing placements"@)
        } else {
            match parse_pairs(words(trim(parts[1])), words(trim(parts[1])).len() as int) {
                Err(e) => Err(e),
                Ok(rows) => Ok(Some((queue, rows))),
            }
        }
    }
}

/// What the first `n` lines mean as a table of perfect clears, or the error
/// of the first line that has one. A later line for a queue replaces an
/// earlier one.
pub open spec fn parse_pc_lines(lines: Seq<Seq<char>>, n: int) -> Result<
    Map<Seq<u8>, Seq<PairRow>>,
    Seq<char>,
>
    decreases n,
{
    if n <= 0 {
        Ok(Map::empty())
    } else {
        match parse_pc_lines(lines, n - 1) {
            Err(e) => Err(e),
            Ok(table) => match parse_pc_line(lines[n - 1]) {
                Err(e) => Err(e),
                Ok(None) => Ok(table),
                Ok(Some((queue, rows))) => Ok(table.insert(queue, rows)),
            },
        }
    }
}

/// Whether the table holds what `rows` holds: the same queues, each with
/// placements of the same kinds and keys, none marked as a spin.
pub open spec fn holds_rows(table: Map<Seq<u8>, Seq<Pair>>, rows: Map<Seq<u8>, Seq<PairRow>>) -> bool {
    &&& table.dom() == rows.dom()
    &&& forall|q: Seq<u8>| #[trigger]
        table.contains_key(q) ==> pair_rows(table[q]) == rows[q] && forall|i: int|
            0 <= i < table[q].len() ==> (#[trigger] table[q][i]).1.wf() && !table[q][i].1.spec_spin()
}

/// Once a word is in error, reading more words keeps the error.
proof fn lemma_pairs_error(words: Seq<Seq<char>>, n: int, m: int)
    requires
        0 <= n <= m,
        parse_pairs(words, n).is_err(),
    ensures
        parse_pairs(words, m) == parse_pairs(words, n),
    decreases m - n,
{
    if n < m {
        lemma_pairs_error(words, n, m - 1);
    }
}

/// Once a line is in error, reading more lines keeps the error.
proof fn lemma_pc_lines_error(lines: Seq<Seq<char>>, n: int, m: int)
    requires
        0 <= n <= m,
        parse_pc_lines(lines, n).is_err(),
    ensures
        parse_pc_lines(lines, m) == parse_pc_lines(lines, n),
    decreases m - n,
{
    if n < m {
        lemma_pc_lines_error(lines, n, m - 1);
    }
}

/// The entry that the characters of a line write, if the line holds one.
pub fn read_pc_line(line: &[char]) -> (r: Result<Option<(Queue, History)>, String>)
    ensures
        match r {
            Ok(None) => parse_pc_line(line@) == Ok::<Option<(Seq<u8>, Seq<PairRow>)>, Seq<char>>(None),
            Ok(Some(entry)) => parse_pc_line(line@) == Ok::<Option<(Seq<u8>, Seq<PairRow>)>, Seq<char>>(
                Some((entry.0@, pair_rows(entry.1@))),
            ) && entry.0.wf() && forall|i: int|
                0 <= i < entry.1@.len() ==> (#[trigger] entry.1@[i]).1.wf() && !entry.1@[i].1.spec_spin(),
            Err(e) => parse_pc_line(line@) == Err::<Option<(Seq<u8>, Seq<PairRow>)>, Seq<char>>(e@),
        },
{
    let t = trim_chars(line);
    if t.len() == 0 || t[0] == '#' {
        return Ok(None);
    }
    let parts = split_chars(t.as_slice(), '=');
    proof {
        lemma_split_len(t@, '=');
        assert(views(parts@).len() == parts@.len());
        assert(views(parts@)[0] == parts@[0]@);
    }
    let name = string_of(trim_chars(parts[0].as_slice()).as_slice());
    let queue = match Queue::from_text(name.as_str()) {
        Some(q) => q,
        None => {
            return Err(String::from_str("queue too long"));
        },
    };
    proof {
        queue.lemma_len();
    }
    if parts.len() < 2 {
        return Err(String::from_str("missing placements"));
    }
    assert(views(parts@)[1] == parts@[1]@);
    let all = words_of(trim_chars(parts[1].as_slice()).as_slice());
    let mut history = History::new();
    let mut i: usize = 0;
    assert(views(all@).len() == all@.len());
    assert(pair_rows(history@) =~= Seq::<PairRow>::empty());
    while i < all.len()
        invariant
            i <= all@.len(),
            views(all@).len() == all@.len(),
            parse_pairs(views(all@), i as int) == Ok::<Seq<PairRow>, Seq<char>>(pair_rows(history@)),
            forall|j: int|
                0 <= j < history@.len() ==> (#[trigger] history@[j]).1.wf() && !history@[j].1.spec_spin(),
            t@ == trim(line@),
            t@.len() > 0,
            t@[0] != '#',
            views(parts@) == split(t@, '='),
            parts@.len() >= 2,
            queue@ == vstd::utf8::encode_utf8(trim(split(t@, '=')[0])),
            queue@.len() <= 64,
            views(all@) == words(trim(split(t@, '=')[1])),
        decreases all@.len() - i,
    {
        assert(views(all@)[i as int] == all@[i as int]@);
        match Pair::read(all[i].as_slice()) {
            Ok(pair) => {
                let ghost before = history@;
                history.push(pair);
                assert(pair_rows(history@) =~= pair_rows(before).push((pair.0, pair.1@)));
            },
            Err(e) => {
                proof {
                    lemma_pairs_error(views(all@), i as int + 1, all@.len() as int);
                }
                return Err(e);
            },
        }
        i = i + 1;
    }
    Ok(Some((queue, history)))
}

impl<'a> Environment<'a> {
    /// The table of perfect clears that the text writes, one entry on each
    /// line.
    #[must_use]
    pub fn parse_pcs(s: &str) -> (r: Result<PcTable, String>)
        ensures
            match r {
                Ok(table) => parse_pc_lines(lines(s@), lines(s@).len() as int) matches Ok(rows)
                    && holds_rows(table@, rows),
                Err(e) => parse_pc_lines(lines(s@), lines(s@).len() as int) == Err::<
                    Map<Seq<u8>, Seq<PairRow>>,
                    Seq<char>,
                >(e@),
            },
    {
        let chars = chars_of(s);
        let all = lines_of(chars.as_slice());
        let mut table = PcTable::new();
        let ghost mut rows: Map<Seq<u8>, Seq<PairRow>> = Map::empty();
        let mut i: usize = 0;
        assert(views(all@).len() == all@.len());
        assert(table@.dom() =~= rows.dom());
        while i < all.len()
            invariant
                i <= all@.len(),
                views(all@) == lines(s@),
                views(all@).len() == all@.len(),
                parse_pc_lines(views(all@), i as int) == Ok::<Map<Seq<u8>, Seq<PairRow>>, Seq<char>>(rows),
                holds_rows(table@, rows),
            decreases all@.len() - i,
        {
            assert(views(all@)[i as int] == all@[i as int]@);
            match read_pc_line(all[i].as_slice()) {
                Ok(None) => {},
                Ok(Some(entry)) => {
                    let ghost before = table@;
                    let ghost q = entry.0@;
                    let ghost pairs = entry.1@;
                    table.insert(entry.0, entry.1);
                    proof {
                        let old_rows = rows;
                        rows = rows.insert(q, pair_rows(pairs));
                        assert(table@.dom() =~= rows.dom());
                        assert forall|k: Seq<u8>| #[trigger] table@.contains_key(k) implies pair_rows(
                            table@[k],
                        ) == rows[k] && forall|x: int|
                            0 <= x < table@[k].len() ==> (#[trigger] table@[k][x]).1.wf()
                                && !table@[k][x].1.spec_spin() by {
                            if k != q {
                                assert(before.contains_key(k));
                            }
                        }
                    }
                },
                Err(e) => {
                    proof {
                        lemma_pc_lines_error(views(all@), i as int + 1, all@.len() as int);
                    }
                    return Err(e);
                },
            }
            i = i + 1;
        }
        Ok(table)
    }

    /// The name of the file that holds the table of perfect clears of up to
    /// `n` pieces for this ruleset, as in `data/srsx_ftd--_4.pc`.
    #[must_use]
    pub fn pc_path(&self, n: usize) -> (path: String)
        ensures
            path@ == "data/"@ + self.state.fingerprint.0@ + seq!['_'] + self.spec_flags() + seq!['_']
                + decimal(n as nat) + ".pc"@,
    {
        let mut path = String::from_str("data/");
        path.append(self.state.fingerprint.0.as_str());
        path.push('_');
        path.append(self.flags().as_str());
        path.push('_');
        push_chars(&mut path, decimal_chars(n as u64).as_slice());
        path.append(".pc");
        assert(path@ =~= "data/"@ + self.state.fingerprint.0@ + seq!['_'] + self.spec_flags() + seq!['_']
            + decimal(n as nat) + ".pc"@);
        path
    }

    /// The first line of the file that holds the table of perfect clears of
    /// up to `n` pieces for this ruleset, as in
    /// `#n=4;kicktable=srsx;total=12;ftd--`.
    #[must_use]
    pub fn pc_header(&self, n: usize, total: usize) -> (header: String)
        ensures
            header@ == "#n="@ + decimal(n as nat) + ";kicktable="@ + self.state.fingerprint.0@
                + ";total="@ + decimal(total as nat) + seq![';'] + self.spec_flags(),
    {
        let mut header = String::from_str("#n=");
        push_chars(&mut header, decimal_chars(n as u64).as_slice());
        header.append(";kicktable=");
        header.append(self.state.fingerprint.0.as_str());
        header.append(";total=");
        push_chars(&mut header, decimal_chars(total as u64).as_slice());
        header.push(';');
        header.append(self.flags().as_str());
        assert(header@ =~= "#n="@ + decimal(n as nat) + ";kicktable="@ + self.state.fingerprint.0@
            + ";total="@ + decimal(total as nat) + seq![';'] + self.spec_flags());
        header
    }
}

} // verus!
