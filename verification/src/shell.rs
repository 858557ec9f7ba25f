//! Reading the command lines of a tiny shell: `exit`, and up to two
//! commands joined by `|`, each a program name followed by its arguments.
use vstd::prelude::*;
use crate::text::{split_fields, fields_of, trim, trim_bounds};

verus! {

/// Whether the line, without surrounding whitespace, is the word `exit`.
pub fn is_exit(line: &str) -> (b: bool)
    ensures
        b == (trim(line@) == seq!['e', 'x', 'i', 't']),
{
    let (from, to) = trim_bounds(line);
    if to - from != 4 {
        assert(seq!['e', 'x', 'i', 't'].len() == 4);
        return false;
    }
    let b = line.get_char(from) == 'e' && line.get_char(from + 1) == 'x' && line.get_char(from + 2)
        == 'i' && line.get_char(from + 3) == 't';
    assert(b == (line@.subrange(from as int, to as int) =~= seq!['e', 'x', 'i', 't']));
    b
}

/// Splits a command line, without surrounding whitespace, at its first `|`
/// into at most two commands, as `splitn(2, "|")` does.
pub fn split_pipeline(line: &str) -> (parts: Vec<String>)
    ensures
        parts@.len() == 1 || parts@.len() == 2,
        parts@.len() == 1 <==> !trim(line@).contains('|'),
        parts@.len() == 1 ==> parts@[0]@ == trim(line@),
        parts@.len() == 2 ==> parts@[0]@ + seq!['|'] + parts@[1]@ == trim(line@) && !parts@[0]@.contains(
            '|',
        ),
{
    let (from, to) = trim_bounds(line);
    let t = line.substring_char(from, to);
    let n = to - from;
    let mut i: usize = 0;
    while i < n && t.get_char(i) != '|'
        invariant
            i <= n,
            n == t@.len(),
            forall|k: int| 0 <= k < i ==> t@[k] != '|',
        decreases n - i,
    {
        i = i + 1;
    }
    let mut parts: Vec<String> = Vec::new();
    if i == n {
        parts.push(t.to_owned());
        assert(!t@.contains('|'));
    } else {
        let first = t.substring_char(0, i).to_owned();
        let second = t.substring_char(i + 1, n).to_owned();
        parts.push(first);
        parts.push(second);
        assert(t@.subrange(0, i as int) + seq!['|'] + t@.subrange(i + 1, n as int) =~= t@);
        assert(t@.contains('|')) by {
            assert(t@[i as int] == '|');
        }
        assert(!t@.subrange(0, i as int).contains('|')) by {
            let u = t@.subrange(0, i as int);
            assert forall|k: int| 0 <= k < u.len() implies u[k] != '|' by {
                assert(u[k] == t@[k]);
            }
        }
    }
    parts
}

fn trimmed(s: &str) -> (t: String)
    ensures
        t@ == trim(s@),
{
    let (from, to) = trim_bounds(s);
    s.substring_char(from, to).to_owned()
}

/// Splits one command into the program name and its arguments: the fields
/// separated by ASCII whitespace, each without surrounding Unicode
/// whitespace. `None` when the command has no field.
pub fn parse_command(command: &str) -> (parsed: Option<(String, Vec<String>)>)
    ensures
        parsed is None <==> split_fields(command@, true).len() == 0,
        parsed matches Some((name, args)) ==> {
            &&& name@ == trim(split_fields(command@, true)[0])
            &&& args@.len() == split_fields(command@, true).len() - 1
            &&& forall|k: int|
                0 <= k < args@.len() ==> #[trigger] args@[k]@ == trim(split_fields(command@, true)[k + 1])
        },
{
    let fields = fields_of(command, true);
    if fields.len() == 0 {
        return None;
    }
    let name = trimmed(fields[0].as_str());
    let mut args: Vec<String> = Vec::new();
    let mut k: usize = 1;
    while k < fields.len()
        invariant
            1 <= k <= fields@.len(),
            fields@.len() == split_fields(command@, true).len(),
            forall|m: int| 0 <= m < fields@.len() ==> #[trigger] fields@[m]@ == split_fields(command@, true)[m],
            args@.len() == k - 1,
            forall|m: int|
                0 <= m < args@.len() ==> #[trigger] args@[m]@ == trim(split_fields(command@, true)[m + 1]),
        decreases fields@.len() - k,
    {
        let a = trimmed(fields[k].as_str());
        args.push(a);
        k = k + 1;
    }
    Some((name, args))
}

} // verus!
