use vstd::prelude::*;
use vstd::slice::*;
use vstd::string::*;

use crate::config::{names_of, Config};
use crate::text::{
    find_char, index_of, lemma_index_of, lemma_index_of_concat, lemma_index_of_facts,
    lemma_trimmed_unchanged, lemma_unquote_quoted, trim_back, trim_chars, trim_front, trimmed,
    unquote_chars, unquoted,
};

verus! {

/// Why the registry could not be read or written.
#[derive(Debug)]
pub enum ConfigStoreError {
    /// The underlying file operation failed.
    Io(std::io::Error),
    /// The registry text is not in the expected two-line form.
    InvalidFormat,
}

/// Reads and writes the registry's two-line text form:
/// `active_storage: "<name>"` and `storage_list: ["n1","n2",...]`.
pub struct ConfigStore {}

/// The non-blank lines of `s`, each trimmed of whitespace.
pub open spec fn entries(s: Seq<char>) -> Seq<Seq<char>>
    decreases s.len(),
{
    let i = index_of(s, '\n');
    let line = trimmed(s.subrange(0, i as int), false);
    let rest = if i < s.len() {
        entries(s.subrange(i + 1int, s.len() as int))
    } else {
        Seq::empty()
    };
    if line.len() == 0 {
        rest
    } else {
        seq![line] + rest
    }
}

/// The comma-separated items of `s`, each unquoted.
pub open spec fn items(s: Seq<char>) -> Seq<Seq<char>>
    decreases s.len(),
{
    let i = index_of(s, ',');
    let item = unquoted(s.subrange(0, i as int));
    if i < s.len() {
        seq![item] + items(s.subrange(i + 1int, s.len() as int))
    } else {
        seq![item]
    }
}

/// The key of a line: what stands before its first colon, unquoted.
pub open spec fn key_of(line: Seq<char>) -> Seq<char> {
    unquoted(line.subrange(0, index_of(line, ':') as int))
}

/// The value of a line: what follows its first colon.
pub open spec fn value_of(line: Seq<char>) -> Seq<char> {
    line.subrange(index_of(line, ':') + 1int, line.len() as int)
}

pub open spec fn has_colon(line: Seq<char>) -> bool {
    index_of(line, ':') < line.len()
}

/// A list value is bracketed once whitespace is trimmed.
pub open spec fn is_bracketed(v: Seq<char>) -> bool {
    let t = trimmed(v, false);
    t.len() >= 2 && t[0] == '[' && t.last() == ']'
}

/// The names of a bracketed list value: none when nothing stands between
/// the brackets.
pub open spec fn list_names(v: Seq<char>) -> Seq<Seq<char>> {
    let t = trimmed(v, false);
    let inner = t.subrange(1, t.len() - 1);
    if inner.len() == 0 {
        Seq::empty()
    } else {
        items(inner)
    }
}

/// A line is well formed: it holds a colon, and a list line's value is
/// bracketed.
pub open spec fn line_ok(line: Seq<char>) -> bool {
    has_colon(line) && (key_of(line) == "storage_list"@ ==> is_bracketed(value_of(line)))
}

/// What the registry text `s` holds, as the active name (empty when none)
/// and the names in order; `None` when it is malformed. It has exactly two
/// non-blank lines, one for each key in either order; the names are
/// distinct, and the active name, unless empty, is one of them.
pub open spec fn parse_config(s: Seq<char>) -> Option<(Seq<char>, Seq<Seq<char>>)> {
    let e = entries(s);
    if e.len() != 2 || !line_ok(e[0]) || !line_ok(e[1]) {
        None
    } else {
        let (a, l) = if key_of(e[0]) == "active_storage"@ {
            (e[0], e[1])
        } else {
            (e[1], e[0])
        };
        let active = unquoted(value_of(a));
        let names = list_names(value_of(l));
        if key_of(a) != "active_storage"@ || key_of(l) != "storage_list"@ {
            None
        } else if !names.no_duplicates() || (active.len() != 0 && !names.contains(active)) {
            None
        } else {
            Some((active, names))
        }
    }
}

/// Each name in double quotes, separated by commas.
pub open spec fn quoted_list(names: Seq<Seq<char>>) -> Seq<char>
    decreases names.len(),
{
    if names.len() == 0 {
        Seq::empty()
    } else if names.len() == 1 {
        "\""@ + names[0] + "\""@
    } else {
        quoted_list(names.drop_last()) + ","@ + "\""@ + names.last() + "\""@
    }
}

/// The registry text for an active name (empty when none) and a list of names.
pub open spec fn config_text(active: Seq<char>, names: Seq<Seq<char>>) -> Seq<char> {
    "active_storage: \""@ + active + "\"\n"@ + "storage_list: ["@ + quoted_list(names) + "]"@
}

pub open spec fn views(v: Seq<Vec<char>>) -> Seq<Seq<char>> {
    v.map_values(|x: Vec<char>| x@)
}

/// Relies on `String`'s `FromIterator<&char>`: the string holds the
/// characters in order.
#[verifier::external_body]
fn string_from_chars(chars: &[char]) -> (r: String)
    ensures
        r@ == chars@,
{
    chars.iter().collect()
}

/// The characters of `s`.
fn chars_of(s: &str) -> (r: Vec<char>)
    ensures
        r@ == s@,
{
    let n = s.unicode_len();
    let mut out: Vec<char> = Vec::new();
    let mut i: usize = 0;
    while i < n
        invariant
            i <= n == s@.len(),
            out@ == s@.subrange(0, i as int),
        decreases n - i,
    {
        out.push(s.get_char(i));
        assert(out@ =~= s@.subrange(0, i + 1));
        i = i + 1;
    }
    assert(out@ =~= s@);
    out
}

/// The non-blank lines of `s`, trimmed.
fn entries_of(s: &[char]) -> (r: Vec<Vec<char>>)
    ensures
        views(r@) == entries(s@),
{
    let mut out: Vec<Vec<char>> = Vec::new();
    let mut rest: &[char] = s;
    loop
        invariant_except_break
            entries(s@) == views(out@) + entries(rest@),
        ensures
            views(out@) == entries(s@),
        decreases rest@.len(),
    {
        let i = find_char(rest, '\n');
        let line = trim_chars(slice_subrange(rest, 0, i), false);
        let ghost before = out@;
        if line.len() > 0 {
            out.push(line);
            assert(views(out@) =~= views(before).push(line@));
        }
        if i == rest.len() {
            assert(entries(rest@) =~= if line@.len() == 0 { Seq::empty() } else { seq![line@] });
            assert(views(out@) =~= entries(s@));
            break;
        }
        let next = slice_subrange(rest, i + 1, rest.len());
        assert(views(out@) + entries(next@) =~= views(before) + entries(rest@));
        rest = next;
    }
    out
}

/// The comma-separated items of `s`, unquoted, as strings.
fn items_of(s: &[char]) -> (r: Vec<String>)
    ensures
        names_of(r@) == items(s@),
{
    let mut out: Vec<String> = Vec::new();
    let mut rest: &[char] = s;
    loop
        invariant_except_break
            items(s@) == names_of(out@) + items(rest@),
        ensures
            names_of(out@) == items(s@),
        decreases rest@.len(),
    {
        let i = find_char(rest, ',');
        let item = unquote_chars(slice_subrange(rest, 0, i));
        let ghost before = out@;
        out.push(string_from_chars(item.as_slice()));
        assert(names_of(out@) =~= names_of(before).push(item@));
        if i == rest.len() {
            assert(names_of(out@) =~= items(s@));
            break;
        }
        let next = slice_subrange(rest, i + 1, rest.len());
        assert(names_of(out@) + items(next@) =~= names_of(before) + items(rest@));
        rest = next;
    }
    out
}

/// The key and value of a line, or `None` without a colon.
fn split_line(line: &[char]) -> (r: Option<(String, Vec<char>)>)
    ensures
        r.is_some() == has_colon(line@),
        r matches Some((k, v)) ==> k@ == key_of(line@) && v@ == value_of(line@),
{
    let i = find_char(line, ':');
    if i == line.len() {
        return None;
    }
    let key = unquote_chars(slice_subrange(line, 0, i));
    let value = slice_to_vec(slice_subrange(line, i + 1, line.len()));
    Some((string_from_chars(key.as_slice()), value))
}

/// The names of a list value, or `None` when it is not bracketed.
fn list_of(value: &[char]) -> (r: Option<Vec<String>>)
    ensures
        r.is_some() == is_bracketed(value@),
        r matches Some(ns) ==> names_of(ns@) == list_names(value@),
{
    let t = trim_chars(value, false);
    if t.len() < 2 || t[0] != '[' || t[t.len() - 1] != ']' {
        return None;
    }
    let inner = slice_subrange(t.as_slice(), 1, t.len() - 1);
    if inner.len() == 0 {
        let empty: Vec<String> = Vec::new();
        assert(names_of(empty@) =~= Seq::empty());
        Some(empty)
    } else {
        Some(items_of(inner))
    }
}

impl ConfigStore {
    /// Parses the registry text; fails with `InvalidFormat` exactly when
    /// `parse_config` finds it malformed.
    pub fn from_str(content: &str) -> (r: Result<Config, ConfigStoreError>)
        ensures
            parse_config(content@) is None ==> r matches Err(ConfigStoreError::InvalidFormat),
            parse_config(content@) matches Some((a, ns)) ==> (r matches Ok(c) && c.wf()
                && c.active() == a && c.names() == ns),
    {
        proof {
            reveal_strlit("active_storage");
            reveal_strlit("storage_list");
            assert("active_storage"@.len() != "storage_list"@.len());
        }
        let chars = chars_of(content);
        let lines = entries_of(chars.as_slice());
        proof {
            assert(views(lines@).len() == lines@.len());
        }
        if lines.len() != 2 {
            return Err(ConfigStoreError::InvalidFormat);
        }
        assert(views(lines@)[0] == lines@[0]@ && views(lines@)[1] == lines@[1]@);
        let first = split_line(lines[0].as_slice());
        let second = split_line(lines[1].as_slice());
        let (k0, v0, k1, v1) = match (first, second) {
            (Some((k0, v0)), Some((k1, v1))) => (k0, v0, k1, v1),
            _ => return Err(ConfigStoreError::InvalidFormat),
        };
        let active_key = String::from_str("active_storage");
        let list_key = String::from_str("storage_list");
        let (active_value, list_value) = if k0 == active_key && k1 == list_key {
            (v0, v1)
        } else if k1 == active_key && k0 == list_key {
            (v1, v0)
        } else {
            return Err(ConfigStoreError::InvalidFormat);
        };
        let names = match list_of(list_value.as_slice()) {
            Some(ns) => ns,
            None => return Err(ConfigStoreError::InvalidFormat),
        };
        let active = unquote_chars(active_value.as_slice());
        let mut config = Config::new();
        if config.set_storage_list(names).is_err() {
            return Err(ConfigStoreError::InvalidFormat);
        }
        assert(config.names() =~= names_of(names@));
        if active.len() > 0 {
            let active_name = string_from_chars(active.as_slice());
            if config.set_active_storage(active_name.as_str()).is_err() {
                return Err(ConfigStoreError::InvalidFormat);
            }
        }
        Ok(config)
    }

    /// The registry text of `config`.
    pub fn to_str(config: &Config) -> (r: String)
        ensures
            r@ == config_text(config.active(), config.names()),
    {
        let mut result = String::from_str("active_storage: \"");
        match config.get_active_storage() {
            Some(active) => result.append(active.as_str()),
            None => {},
        }
        result.append("\"\n");
        result.append("storage_list: [");
        let list = config.get_storage_list();
        let mut i: usize = 0;
        let ghost start = result@;
        while i < list.len()
            invariant
                i <= list@.len(),
                names_of(list@) == config.names(),
                result@ == start + quoted_list(names_of(list@).subrange(0, i as int)),
            decreases list@.len() - i,
        {
            let ghost prev = names_of(list@).subrange(0, i as int);
            if i > 0 {
                result.append(",");
            }
            result.append("\"");
            result.append(list[i].as_str());
            result.append("\"");
            proof {
                let next = names_of(list@).subrange(0, i + 1);
                assert(next.drop_last() =~= prev);
                assert(next.last() == list@[i as int]@);
                if i == 0 {
                    assert(prev =~= Seq::<Seq<char>>::empty());
                }
            }
            i = i + 1;
        }
        assert(names_of(list@).subrange(0, i as int) =~= config.names());
        result.append("]");
        result
    }
}

/// A name that the registry text keeps as it is: no comma and no line
/// break in it, and no double quote at either end.
pub open spec fn plain_name(n: Seq<char>) -> bool {
    &&& forall|i: int| 0 <= i < n.len() ==> n[i] != ',' && n[i] != '\n'
    &&& (n.len() == 0 || (n[0] != '"' && n.last() != '"'))
}

proof fn lemma_items_concat(x: Seq<char>, y: Seq<char>)
    ensures
        items(x + seq![','] + y) == items(x) + items(y),
    decreases x.len(),
{
    let z = x + (seq![','] + y);
    assert(x + seq![','] + y =~= z);
    lemma_index_of_concat(x, seq![','] + y, ',');
    lemma_index_of_facts(x, ',');
    let i = index_of(x, ',');
    if i < x.len() {
        assert(z.subrange(0, i as int) =~= x.subrange(0, i as int));
        let xr = x.subrange(i + 1int, x.len() as int);
        assert(z.subrange(i + 1int, z.len() as int) =~= xr + seq![','] + y);
        lemma_items_concat(xr, y);
        assert(items(z) =~= items(x) + items(y));
    } else {
        assert((seq![','] + y)[0] == ',');
        assert(index_of(seq![','] + y, ',') == 0);
        assert(z.subrange(0, x.len() as int) =~= x);
        assert(x.subrange(0, x.len() as int) =~= x);
        assert(z.subrange(x.len() + 1int, z.len() as int) =~= y);
        assert(items(z) =~= items(x) + items(y));
    }
}

proof fn lemma_quoted_has_no_break(names: Seq<Seq<char>>)
    requires
        forall|i: int| 0 <= i < names.len() ==> plain_name(#[trigger] names[i]),
    ensures
        forall|k: int| 0 <= k < quoted_list(names).len() ==> quoted_list(names)[k] != '\n',
    decreases names.len(),
{
    reveal_strlit("\"");
    reveal_strlit(",");
    if names.len() > 0 {
        let n = names.last();
        assert(plain_name(names[names.len() - 1]));
        let a = if names.len() == 1 {
            Seq::<char>::empty()
        } else {
            quoted_list(names.drop_last()) + seq![',']
        };
        if names.len() > 1 {
            lemma_quoted_has_no_break(names.drop_last());
        }
        assert(quoted_list(names) =~= a + seq!['"'] + n + seq!['"']);
        assert forall|k: int| 0 <= k < quoted_list(names).len() implies quoted_list(names)[k]
            != '\n' by {
            if k >= a.len() + 1 && k < a.len() + 1 + n.len() {
                assert(quoted_list(names)[k] == n[k - a.len() - 1]);
            }
        }
    }
}

proof fn lemma_items_quoted(names: Seq<Seq<char>>)
    requires
        names.len() >= 1,
        forall|i: int| 0 <= i < names.len() ==> plain_name(#[trigger] names[i]),
    ensures
        items(quoted_list(names)) == names,
    decreases names.len(),
{
    reveal_strlit("\"");
    reveal_strlit(",");
    let n = names.last();
    assert(plain_name(names[names.len() - 1]));
    let q = "\""@ + n + "\""@;
    assert(q =~= Seq::<char>::empty() + seq!['"'] + n + seq!['"']);
    lemma_unquote_quoted(n, Seq::<char>::empty());
    assert(!q.contains(',')) by {
        if q.contains(',') {
            let k = choose|k: int| 0 <= k < q.len() && q[k] == ',';
            assert(n[k - 1] == ',');
        }
    }
    lemma_index_of_facts(q, ',');
    assert(q.subrange(0, q.len() as int) =~= q);
    assert(items(q) == seq![n]);
    if names.len() == 1 {
        assert(names =~= seq![n]);
    } else {
        let d = names.drop_last();
        lemma_items_quoted(d);
        assert(quoted_list(names) =~= quoted_list(d) + seq![','] + q);
        lemma_items_concat(quoted_list(d), q);
        assert(d + seq![n] =~= names);
    }
}

proof fn lemma_two_entries(l1: Seq<char>, l2: Seq<char>)
    requires
        !l1.contains('\n'),
        !l2.contains('\n'),
        l1.len() > 0 && trimmed(l1, false) == l1,
        l2.len() > 0 && trimmed(l2, false) == l2,
    ensures
        entries(l1 + (seq!['\n'] + l2)) == seq![l1, l2],
{
    let text = l1 + (seq!['\n'] + l2);
    lemma_index_of_facts(l1, '\n');
    lemma_index_of_facts(l2, '\n');
    lemma_index_of_concat(l1, seq!['\n'] + l2, '\n');
    assert((seq!['\n'] + l2)[0] == '\n');
    assert(index_of(text, '\n') == l1.len());
    assert(text.subrange(0, l1.len() as int) =~= l1);
    assert(text.subrange(l1.len() + 1int, text.len() as int) =~= l2);
    assert(l2.subrange(0, l2.len() as int) =~= l2);
    assert(entries(l2) =~= seq![l2]);
    assert(entries(text) =~= seq![l1, l2]);
}

proof fn lemma_registry_lines(active: Seq<char>, names: Seq<Seq<char>>)
    requires
        plain_name(active),
        forall|i: int| 0 <= i < names.len() ==> plain_name(#[trigger] names[i]),
    ensures
        entries(config_text(active, names)) == seq![
            "active_storage: \""@ + active + seq!['"'],
            "storage_list: ["@ + quoted_list(names) + "]"@,
        ],
{
    reveal_strlit("active_storage: \"");
    reveal_strlit("\"\n");
    reveal_strlit("storage_list: [");
    reveal_strlit("]");
    let ql = quoted_list(names);
    let l1 = "active_storage: \""@ + active + seq!['"'];
    let l2 = "storage_list: ["@ + ql + "]"@;
    assert(config_text(active, names) =~= l1 + (seq!['\n'] + l2));
    lemma_quoted_has_no_break(names);
    assert(!l1.contains('\n')) by {
        if l1.contains('\n') {
            let k = choose|k: int| 0 <= k < l1.len() && l1[k] == '\n';
            assert(active[k - 17] == '\n');
        }
    }
    assert(!l2.contains('\n')) by {
        if l2.contains('\n') {
            let k = choose|k: int| 0 <= k < l2.len() && l2[k] == '\n';
            assert(ql[k - 15] == '\n');
        }
    }
    assert(l1[0] == 'a' && l1.last() == '"');
    lemma_trimmed_unchanged(l1, false);
    assert(l2[0] == 's' && l2.last() == ']');
    lemma_trimmed_unchanged(l2, false);
    lemma_two_entries(l1, l2);
}

proof fn lemma_active_line(active: Seq<char>)
    requires
        plain_name(active),
    ensures
        has_colon("active_storage: \""@ + active + seq!['"']),
        key_of("active_storage: \""@ + active + seq!['"']) == "active_storage"@,
        unquoted(value_of("active_storage: \""@ + active + seq!['"'])) == active,
{
    reveal_strlit("active_storage: \"");
    reveal_strlit("active_storage");
    let l1 = "active_storage: \""@ + active + seq!['"'];
    lemma_index_of(l1, ':', 14);
    assert(l1.subrange(0, 14) =~= "active_storage"@);
    lemma_trimmed_unchanged("active_storage"@, false);
    lemma_trimmed_unchanged("active_storage"@, true);
    assert(value_of(l1) =~= seq![' '] + seq!['"'] + active + seq!['"']);
    lemma_unquote_quoted(active, seq![' ']);
}

proof fn lemma_list_line(names: Seq<Seq<char>>)
    requires
        forall|i: int| 0 <= i < names.len() ==> plain_name(#[trigger] names[i]),
    ensures
        has_colon("storage_list: ["@ + quoted_list(names) + "]"@),
        key_of("storage_list: ["@ + quoted_list(names) + "]"@) == "storage_list"@,
        is_bracketed(value_of("storage_list: ["@ + quoted_list(names) + "]"@)),
        list_names(value_of("storage_list: ["@ + quoted_list(names) + "]"@)) == names,
{
    reveal_strlit("storage_list: [");
    reveal_strlit("]");
    reveal_strlit("storage_list");
    let ql = quoted_list(names);
    let l2 = "storage_list: ["@ + ql + "]"@;
    lemma_index_of(l2, ':', 12);
    assert(l2.subrange(0, 12) =~= "storage_list"@);
    lemma_trimmed_unchanged("storage_list"@, false);
    lemma_trimmed_unchanged("storage_list"@, true);
    let v = value_of(l2);
    let b = seq!['['] + ql + seq![']'];
    assert(v =~= seq![' '] + b);
    assert(v.drop_first() =~= b);
    assert(trim_front(b, false) == b);
    assert(trim_front(v, false) == b);
    assert(trim_back(b, false) == b);
    assert(trimmed(v, false) == b);
    assert(b.subrange(1, b.len() - 1) =~= ql);
    if names.len() == 0 {
        assert(list_names(v) =~= names);
    } else {
        lemma_items_quoted(names);
        assert(ql.len() > 0) by {
            reveal_strlit("\"");
            reveal_strlit(",");
        }
    }
}

/// Writing a registry as text and parsing that text gives the registry back:
/// its active name (or none) and its names in order. This holds for names
/// that hold no comma and no line break and do not begin or end with a
/// double quote, since the text form does not escape them.
pub proof fn law_registry_round_trip(active: Seq<char>, names: Seq<Seq<char>>)
    requires
        names.no_duplicates(),
        active.len() == 0 || names.contains(active),
        plain_name(active),
        forall|i: int| 0 <= i < names.len() ==> plain_name(#[trigger] names[i]),
    ensures
        parse_config(config_text(active, names)) == Some((active, names)),
{
    reveal_strlit("active_storage");
    reveal_strlit("storage_list");
    assert("active_storage"@.len() != "storage_list"@.len());
    lemma_registry_lines(active, names);
    lemma_active_line(active);
    lemma_list_line(names);
}

} // verus!
