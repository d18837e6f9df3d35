//! Files of named values, where a value may stand for the value of another
//! name.

use crate::text::{
    chars_of, find_char, find_from, lines, lines_of, number_i32, parse_i32, slice_chars, string_of,
    trim, trim_chars, trim_start, trim_start_chars, views,
};
use rustc_hash::FxHashMap;
use vstd::prelude::*;
use vstd::string::StringExecFns;

verus! {

/// What a name stands for: a text of its own, or the value of another name.
#[derive(Clone, Debug, PartialEq, Eq)]
pub enum Value {
    Content(String),
    Ref(String),
}

/// A value without its strings.
pub enum ValueRow {
    Content(Seq<char>),
    Ref(Seq<char>),
}

impl Value {
    /// The value without its strings.
    pub open spec fn row(self) -> ValueRow {
        match self {
            Value::Content(t) => ValueRow::Content(t@),
            Value::Ref(t) => ValueRow::Ref(t@),
        }
    }
}

/// What can be wrong with the text of such a file: the line with the given
/// number, counted from 0, has no `=`.
#[derive(Clone, Copy, Debug, PartialEq, Eq)]
pub enum RefvParseErr {
    Invalid(usize),
}

/// Values by name.
pub type Scope = FxHashMap<String, Value>;

/// What a scope holds: its values by the text of their names.
pub uninterp spec fn scope_entries(m: Scope) -> Map<Seq<char>, ValueRow>;

/// `FxHashMap::default` of rustc_hash: a map that holds nothing.
#[verifier::external_body]
fn scope_new() -> (m: Scope)
    ensures
        scope_entries(m) == no_entries(),
{
    FxHashMap::default()
}

/// `HashMap::insert` with the hasher of rustc_hash: afterwards the map holds
/// the value under the name, in place of what it held there before, and what
/// it held under other names as before. Names are strings, which are equal
/// when their texts are.
#[verifier::external_body]
fn scope_insert(m: &mut Scope, name: String, value: Value)
    ensures
        scope_entries(*final(m)) == scope_entries(*old(m)).insert(name@, value.row()),
{
    m.insert(name, value);
}

/// `HashMap::get` with the hasher of rustc_hash: the value that the map holds
/// under the name, if it holds one.
#[verifier::external_body]
fn scope_get<'a>(m: &'a Scope, name: &str) -> (v: Option<&'a Value>)
    ensures
        match v {
            Some(value) => scope_entries(*m).contains_key(name@) && scope_entries(*m)[name@] == value.row(),
            None => !scope_entries(*m).contains_key(name@),
        },
{
    m.get(name)
}

/// The map without names.
pub open spec fn no_entries() -> Map<Seq<char>, ValueRow> {
    Map::empty()
}

/// The texts of the strings.
pub open spec fn texts_of(names: Seq<String>) -> Seq<Seq<char>> {
    Seq::new(names.len(), |i: int| names[i]@)
}

/// Whether `names` are the names of `entries`, each once.
pub open spec fn lists_names(names: Seq<Seq<char>>, entries: Map<Seq<char>, ValueRow>) -> bool {
    &&& names.no_duplicates()
    &&& forall|k: Seq<char>| entries.contains_key(k) <==> names.contains(k)
}

/// What a line means as an entry. White space before the line does not count;
/// an empty line and a line that starts with `#` hold nothing. Else the name
/// is what stands before the first `=`, and what stands after it is the
/// value, or after `&` the name of another entry.
pub open spec fn parse_entry(line: Seq<char>) -> Option<Option<(Seq<char>, ValueRow)>> {
    let t = trim_start(line);
    let i = find_from(t, '=', 0);
    if t.len() == 0 || t[0] == '#' {
        Some(None)
    } else if i >= t.len() {
        None
    } else if i + 1 < t.len() && t[i + 1] == '&' {
        Some(Some((t.subrange(0, i), ValueRow::Ref(t.subrange(i + 2, t.len() as int)))))
    } else {
        Some(Some((t.subrange(0, i), ValueRow::Content(t.subrange(i + 1, t.len() as int)))))
    }
}

/// What the first `n` lines mean, or the number of the first line that means
/// nothing. A later entry for a name replaces an earlier one.
pub open spec fn parse_entries(lines: Seq<Seq<char>>, n: int) -> Result<Map<Seq<char>, ValueRow>, int>
    decreases n,
{
    if n <= 0 {
        Ok(Map::empty())
    } else {
        match parse_entries(lines, n - 1) {
            Err(e) => Err(e),
            Ok(entries) => match parse_entry(lines[n - 1]) {
                None => Err(n - 1),
                Some(None) => Ok(entries),
                Some(Some((name, value))) => Ok(entries.insert(name, value)),
            },
        }
    }
}

/// Once a line means nothing, reading more lines keeps the error.
proof fn lemma_entries_error(lines: Seq<Seq<char>>, n: int, m: int)
    requires
        0 <= n <= m,
        parse_entries(lines, n).is_err(),
    ensures
        parse_entries(lines, m) == parse_entries(lines, n),
    decreases m - n,
{
    if n < m {
        lemma_entries_error(lines, n, m - 1);
    }
}

/// The text that `label` stands for, found by following at most `fuel`
/// entries: an entry with a text of its own ends the search, and an entry
/// that names another continues it there.
pub open spec fn resolve(entries: Map<Seq<char>, ValueRow>, label: Seq<char>, fuel: nat) -> Option<
    Seq<char>,
>
    decreases fuel,
{
    if fuel == 0 || !entries.contains_key(label) {
        None
    } else {
        match entries[label] {
            ValueRow::Content(t) => Some(t),
            ValueRow::Ref(t) => resolve(entries, t, (fuel - 1) as nat),
        }
    }
}

/// As many entries as a search follows before it gives up.
pub open spec fn patience() -> nat {
    usize::MAX as nat
}

/// The lines `name=text` of the first `n` names, each followed by a line
/// feed.
pub open spec fn entry_lines(entries: Map<Seq<char>, ValueRow>, names: Seq<Seq<char>>, n: int) -> Seq<
    char,
>
    decreases n,
{
    if n <= 0 {
        Seq::empty()
    } else {
        entry_lines(entries, names, n - 1) + names[n - 1] + seq!['='] + (match resolve(
            entries,
            names[n - 1],
            patience(),
        ) {
            Some(t) => t,
            None => Seq::empty(),
        }) + seq!['\n']
    }
}

/// Named values. Beside the values by name the names are kept, each once, in
/// the order in which they first came.
pub struct Refv {
    scope: Scope,
    names: Vec<String>,
}

impl View for Refv {
    type V = Map<Seq<char>, ValueRow>;

    /// The values by name.
    closed spec fn view(&self) -> Map<Seq<char>, ValueRow> {
        scope_entries(self.scope)
    }
}

/// Names that are listed each once are as many as the list is long.
proof fn lemma_names_len(names: Seq<Seq<char>>, entries: Map<Seq<char>, ValueRow>)
    requires
        lists_names(names, entries),
    ensures
        entries.dom().finite(),
        entries.dom().len() == names.len(),
{
    names.unique_seq_to_set();
    assert(names.to_set() =~= entries.dom());
    vstd::seq_lib::seq_to_set_is_finite(names);
}

impl Refv {
    /// Holds of every value of this type that the library hands out: the
    /// names kept are the names of the entries, each once.
    #[verifier::type_invariant]
    pub closed spec fn wf(self) -> bool {
        lists_names(texts_of(self.names@), scope_entries(self.scope))
    }

    /// The named values that the text writes, one entry on each line.
    pub fn new(raw: &str) -> (r: Result<Refv, RefvParseErr>)
        ensures
            match r {
                Ok(refv) => parse_entries(lines(raw@), lines(raw@).len() as int) == Ok::<
                    Map<Seq<char>, ValueRow>,
                    int,
                >(refv@),
                Err(RefvParseErr::Invalid(idx)) => parse_entries(lines(raw@), lines(raw@).len() as int)
                    == Err::<Map<Seq<char>, ValueRow>, int>(idx as int),
            },
    {
        let chars = chars_of(raw);
        let all = lines_of(chars.as_slice());
        let mut scope = scope_new();
        let mut names: Vec<String> = Vec::new();
        let mut idx: usize = 0;
        assert(views(all@).len() == all@.len());
        assert(lists_names(texts_of(names@), scope_entries(scope))) by {
            assert(texts_of(names@) =~= Seq::<Seq<char>>::empty());
        }
        while idx < all.len()
            invariant
                idx <= all@.len(),
                views(all@) == lines(raw@),
                views(all@).len() == all@.len(),
                parse_entries(views(all@), idx as int) == Ok::<Map<Seq<char>, ValueRow>, int>(
                    scope_entries(scope),
                ),
                lists_names(texts_of(names@), scope_entries(scope)),
            decreases all@.len() - idx,
        {
            assert(views(all@)[idx as int] == all@[idx as int]@);
            let t = trim_start_chars(all[idx].as_slice());
            let n = t.len();
            if !(n == 0 || t[0] == '#') {
                proof {
                    crate::text::lemma_find_from(t@, '=', 0);
                }
                match find_char(t.as_slice(), '=', 0) {
                    Some(i) => {
                        let name = string_of(slice_chars(t.as_slice(), 0, i).as_slice());
                        let value = if i + 1 < n && t[i + 1] == '&' {
                            Value::Ref(string_of(slice_chars(t.as_slice(), i + 2, n).as_slice()))
                        } else {
                            Value::Content(string_of(slice_chars(t.as_slice(), i + 1, n).as_slice()))
                        };
                        let ghost before = scope_entries(scope);
                        let ghost listed = texts_of(names@);
                        let ghost text = name@;
                        if scope_get(&scope, name.as_str()).is_none() {
                            names.push(name.clone());
                            proof {
                                assert(texts_of(names@) =~= listed.push(text));
                            }
                        }
                        scope_insert(&mut scope, name, value);
                        proof {
                            let now = texts_of(names@);
                            assert(now.no_duplicates()) by {
                                assert forall|i: int, j: int|
                                    0 <= i < now.len() && 0 <= j < now.len() && i != j implies now[i]
                                    != now[j] by {
                                    if i < listed.len() && j < listed.len() {
                                        assert(listed[i] != listed[j]);
                                    } else if i < listed.len() {
                                        assert(listed.contains(listed[i]));
                                    } else if j < listed.len() {
                                        assert(listed.contains(listed[j]));
                                    }
                                }
                            }
                            assert forall|k: Seq<char>| scope_entries(scope).contains_key(k) <==> now.contains(
                                k,
                            ) by {
                                if listed.contains(k) {
                                    let i = choose|i: int| 0 <= i < listed.len() && listed[i] == k;
                                    assert(now[i] == k);
                                }
                                if now.contains(k) {
                                    let i = choose|i: int| 0 <= i < now.len() && now[i] == k;
                                    if i < listed.len() {
                                        assert(listed[i] == k);
                                    }
                                }
                                if k == text {
                                    if before.contains_key(text) {
                                        assert(listed.contains(text));
                                    } else {
                                        assert(now[now.len() - 1] == text);
                                    }
                                }
                            }
                        }
                    },
                    None => {
                        proof {
                            lemma_entries_error(views(all@), idx as int + 1, all@.len() as int);
                        }
                        return Err(RefvParseErr::Invalid(idx));
                    },
                }
            }
            idx = idx + 1;
        }
        Ok(Refv { scope, names })
    }

    /// The number of names.
    #[must_use]
    pub fn len(&self) -> (n: usize)
        ensures
            self@.dom().finite(),
            n == self@.dom().len(),
    {
        proof {
            use_type_invariant(self);
            lemma_names_len(texts_of(self.names@), self@);
        }
        self.names.len()
    }

    /// Whether there is no name.
    #[must_use]
    pub fn is_empty(&self) -> (e: bool)
        ensures
            e == (self@.dom().len() == 0),
    {
        self.len() == 0
    }

    /// The text that `label` stands for, if the entries lead to one.
    #[must_use]
    pub fn get_raw<'a>(&'a self, label: &'a str) -> (r: Option<&'a str>)
        ensures
            match r {
                Some(t) => resolve(self@, label@, patience()) == Some(t@),
                None => resolve(self@, label@, patience()).is_none(),
            },
    {
        let mut current: &str = label;
        let mut left: usize = usize::MAX;
        while left > 0
            invariant
                resolve(self@, label@, patience()) == resolve(self@, current@, left as nat),
            decreases left,
        {
            match scope_get(&self.scope, current) {
                Some(Value::Ref(t)) => {
                    current = t.as_str();
                },
                Some(Value::Content(t)) => {
                    return Some(t.as_str());
                },
                None => {
                    return None;
                },
            }
            left = left - 1;
        }
        None
    }

    /// The number that `label` stands for: `None` if the entries lead to no
    /// text, and `Some(None)` if they lead to a text that, white space around
    /// it apart, is no number of 32 bits with sign.
    #[must_use]
    pub fn get_i32(&self, label: &str) -> (r: Option<Option<i32>>)
        ensures
            r == (match resolve(self@, label@, patience()) {
                Some(t) => Some(number_i32(trim(t))),
                None => None,
            }),
    {
        match self.get_raw(label) {
            Some(t) => {
                let chars = chars_of(t);
                Some(parse_i32(trim_chars(chars.as_slice()).as_slice()))
            },
            None => None,
        }
    }

    /// The entries as text, each name once with the text it stands for, as
    /// lines `name=text`. `None` if a name leads to no text.
    #[must_use]
    pub fn deserialize(self) -> (r: Option<String>)
        ensures
            match r {
                Some(text) => exists|names: Seq<Seq<char>>|
                    #[trigger] lists_names(names, self@) && text@ == entry_lines(
                        self@,
                        names,
                        names.len() as int,
                    ),
                None => exists|name: Seq<char>|
                    self@.contains_key(name) && #[trigger] resolve(self@, name, patience()).is_none(),
            },
    {
        proof {
            use_type_invariant(&self);
        }
        let names = &self.names;
        let ghost listed = texts_of(names@);
        let mut f = String::new();
        let mut i: usize = 0;
        while i < names.len()
            invariant
                i <= names@.len(),
                listed == texts_of(names@),
                lists_names(listed, self@),
                f@ == entry_lines(self@, listed, i as int),
            decreases names@.len() - i,
        {
            assert(listed[i as int] == names@[i as int]@);
            match self.get_raw(names[i].as_str()) {
                Some(t) => {
                    f.append(names[i].as_str());
                    f.push('=');
                    f.append(t);
                    f.push('\n');
                    assert(f@ =~= entry_lines(self@, listed, i as int + 1));
                },
                None => {
                    proof {
                        assert(listed.contains(listed[i as int]));
                        assert(self@.contains_key(listed[i as int]));
                    }
                    return None;
                },
            }
            i = i + 1;
        }
        assert(listed.len() == names@.len());
        Some(f)
    }
}

} // verus!
