//! Command-line arguments of a process, kept as `(name, value)` pairs.

use vstd::prelude::*;
use vstd::string::*;

use crate::text::{join_path, path_join, has_root_marker, strip_root_marker};

verus! {

/// The text of one argument: `--name`, or `--name=value` when the value is not empty.
pub open spec fn arg_text(name: Seq<char>, value: Seq<char>) -> Seq<char> {
    if value.len() == 0 {
        seq!['-', '-'] + name
    } else {
        seq!['-', '-'] + name + seq!['='] + value
    }
}

/// An argument is `--`, then the name, then, for a value that is not empty, `=` and
/// the value itself, character for character, with nothing added or left out: the
/// value can be read back from what follows `--<name>=`.
pub proof fn lemma_arg_layout(name: Seq<char>, value: Seq<char>)
    ensures
        ({
            let arg = arg_text(name, value);
            &&& arg[0] == '-' && arg[1] == '-'
            &&& arg.subrange(2, 2 + name.len() as int) == name
            &&& value.len() == 0 ==> arg.len() == name.len() + 2
            &&& value.len() > 0 ==> {
                &&& arg.len() == name.len() + value.len() + 3
                &&& arg[2 + name.len() as int] == '='
                &&& arg.skip(3 + name.len() as int) == value
            }
        }),
{
    let arg = arg_text(name, value);
    assert(arg.subrange(2, 2 + name.len() as int) =~= name);
    if value.len() > 0 {
        assert(arg.skip(3 + name.len() as int) =~= value);
    }
}

/// The pairs as text.
pub open spec fn pairs_view(args: Seq<(String, String)>) -> Seq<(Seq<char>, Seq<char>)> {
    args.map_values(|p: (String, String)| (p.0@, p.1@))
}

/// The strings as text.
pub open spec fn strings_view(v: Seq<String>) -> Seq<Seq<char>> {
    v.map_values(|s: String| s@)
}

/// The argument list that the pairs give, in their order.
pub open spec fn args_text(args: Seq<(Seq<char>, Seq<char>)>) -> Seq<Seq<char>> {
    args.map_values(|p: (Seq<char>, Seq<char>)| arg_text(p.0, p.1))
}

/// The value stored under `key`: that of the first pair with this name.
pub open spec fn lookup(args: Seq<(Seq<char>, Seq<char>)>, key: Seq<char>) -> Option<Seq<char>>
    decreases args.len(),
{
    if args.len() == 0 {
        None
    } else if args[0].0 == key {
        Some(args[0].1)
    } else {
        lookup(args.drop_first(), key)
    }
}

/// A value after path resolution: `ROOT+rest` becomes `rest` joined onto `root`.
pub open spec fn resolve_value(value: Seq<char>, root: Seq<char>) -> Seq<char> {
    if has_root_marker(value) {
        path_join(root, value.skip(5))
    } else {
        value
    }
}

/// All pairs after path resolution of their values; names and order are kept.
pub open spec fn resolve_all(args: Seq<(Seq<char>, Seq<char>)>, root: Seq<char>) -> Seq<
    (Seq<char>, Seq<char>),
> {
    args.map_values(|p: (Seq<char>, Seq<char>)| (p.0, resolve_value(p.1, root)))
}

proof fn lemma_resolved_unmarked(value: Seq<char>, root: Seq<char>)
    requires
        root.len() > 0,
        !has_root_marker(root),
        has_root_marker(value),
    ensures
        !has_root_marker(resolve_value(value, root)),
{
    let rest = value.skip(5);
    let r = resolve_value(value, root);
    if has_root_marker(r) {
        let marker = seq!['R', 'O', 'O', 'T', '+'];
        assert(r.take(5) == marker);
        if rest.len() > 0 && rest[0] == '/' {
            assert(r[0] == '/');
            assert(r.take(5)[0] == 'R');
        } else {
            let prefix = if root.last() != '/' {
                root + seq!['/']
            } else {
                root
            };
            assert(r == prefix + rest);
            if root.len() >= 5 {
                assert(root.take(5) =~= r.take(5));
            } else if root.last() != '/' {
                assert(r[root.len() as int] == '/');
                assert(r.take(5)[root.len() as int] == marker[root.len() as int]);
            } else {
                assert(r[root.len() - 1] == '/');
                assert(r.take(5)[root.len() - 1] == marker[root.len() - 1]);
            }
        }
    }
}

/// Resolving against a root that is not empty and does not itself begin with `ROOT+`
/// a second time changes nothing.
pub proof fn lemma_resolve_idempotent(args: Seq<(Seq<char>, Seq<char>)>, root: Seq<char>)
    requires
        root.len() > 0,
        !has_root_marker(root),
    ensures
        resolve_all(resolve_all(args, root), root) == resolve_all(args, root),
{
    assert forall|i: int| 0 <= i < args.len() implies #[trigger] resolve_value(
        resolve_value(args[i].1, root),
        root,
    ) == resolve_value(args[i].1, root) by {
        if has_root_marker(args[i].1) {
            lemma_resolved_unmarked(args[i].1, root);
        }
    }
    assert(resolve_all(resolve_all(args, root), root) =~= resolve_all(args, root));
}

/// Formats one `(name, value)` pair as a command-line argument.
pub fn format_args(pair: (&String, &String)) -> (arg: String)
    ensures
        arg@ == arg_text(pair.0@, pair.1@),
{
    let (k, v) = pair;
    let mut arg = String::from_str("--");
    proof {
        reveal_strlit("--");
        reveal_strlit("=");
    }
    arg.append(k.as_str());
    if v.as_str().unicode_len() > 0 {
        arg.append("=");
        arg.append(v.as_str());
    }
    arg
}

/// Formats every pair, in order.
pub fn format_pairs(args: &Vec<(String, String)>) -> (out: Vec<String>)
    ensures
        strings_view(out@) == args_text(pairs_view(args@)),
{
    let mut out: Vec<String> = Vec::new();
    let n = args.len();
    for i in 0..n
        invariant
            n == args@.len(),
            out@.len() == i,
            forall|j: int|
                0 <= j < i ==> #[trigger] out@[j]@ == arg_text(args@[j].0@, args@[j].1@),
    {
        let p = &args[i];
        out.push(format_args((&p.0, &p.1)));
    }
    assert(strings_view(out@) =~= args_text(pairs_view(args@)));
    out
}

proof fn lemma_lookup_skip(args: Seq<(Seq<char>, Seq<char>)>, key: Seq<char>, i: int)
    requires
        0 <= i <= args.len(),
        forall|j: int| 0 <= j < i ==> #[trigger] args[j].0 != key,
    ensures
        lookup(args, key) == lookup(args.skip(i), key),
    decreases i,
{
    if i == 0 {
        assert(args.skip(0) =~= args);
    } else {
        assert(args[0].0 != key);
        let rest = args.drop_first();
        assert forall|j: int| 0 <= j < i - 1 implies #[trigger] rest[j].0 != key by {
            assert(rest[j] == args[j + 1]);
        }
        lemma_lookup_skip(rest, key, i - 1);
        assert(rest.skip(i - 1) =~= args.skip(i));
    }
}

/// No name occurs twice, as in a map from names to values.
pub open spec fn names_distinct(args: Seq<(Seq<char>, Seq<char>)>) -> bool {
    forall|i: int, j: int| 0 <= i < j < args.len() ==> #[trigger] args[i].0 != #[trigger] args[j].0
}

/// Where names are distinct, the value stored under each pair's name is that pair's
/// value, and a name that no pair has has no value.
pub proof fn lemma_lookup_distinct(args: Seq<(Seq<char>, Seq<char>)>, key: Seq<char>)
    requires
        names_distinct(args),
    ensures
        forall|i: int| 0 <= i < args.len() && #[trigger] args[i].0 == key ==> lookup(args, key) == Some(args[i].1),
        (forall|i: int| 0 <= i < args.len() ==> #[trigger] args[i].0 != key) ==> lookup(args, key) is None,
{
    assert forall|i: int| 0 <= i < args.len() && #[trigger] args[i].0 == key implies lookup(args, key) == Some(args[i].1) by {
        assert forall|j: int| 0 <= j < i implies #[trigger] args[j].0 != key by {
            assert(args[j].0 != args[i].0);
        }
        lemma_lookup_skip(args, key, i);
        assert(args.skip(i)[0] == args[i]);
    }
    if forall|i: int| 0 <= i < args.len() ==> #[trigger] args[i].0 != key {
        lemma_lookup_skip(args, key, args.len() as int);
    }
}

/// Resolution keeps the names, so distinct names stay distinct.
pub proof fn lemma_resolve_keeps_names(args: Seq<(Seq<char>, Seq<char>)>, root: Seq<char>)
    ensures
        names_distinct(resolve_all(args, root)) == names_distinct(args),
{
    let r = resolve_all(args, root);
    assert forall|i: int| 0 <= i < args.len() implies #[trigger] r[i].0 == args[i].0 by {}
    if names_distinct(args) {
        assert forall|i: int, j: int| 0 <= i < j < r.len() implies #[trigger] r[i].0 != #[trigger] r[j].0 by {
            assert(r[i].0 == args[i].0 && r[j].0 == args[j].0);
        }
    }
    if names_distinct(r) {
        assert forall|i: int, j: int| 0 <= i < j < args.len() implies #[trigger] args[i].0 != #[trigger] args[j].0 by {
            assert(r[i].0 == args[i].0 && r[j].0 == args[j].0);
        }
    }
}

/// The value of the first pair named `key`; where names are distinct, as in a map, the
/// one value stored under it (see `lemma_lookup_distinct`).
pub fn find_value<'a>(args: &'a Vec<(String, String)>, key: &str) -> (found: Option<&'a String>)
    ensures
        match found {
            Some(v) => lookup(pairs_view(args@), key@) == Some(v@),
            None => lookup(pairs_view(args@), key@) is None,
        },
{
    let wanted = String::from_str(key);
    let n = args.len();
    let ghost view = pairs_view(args@);
    for i in 0..n
        invariant
            n == args@.len(),
            view == pairs_view(args@),
            wanted@ == key@,
            forall|j: int| 0 <= j < i ==> #[trigger] view[j].0 != key@,
    {
        if args[i].0 == wanted {
            proof {
                lemma_lookup_skip(view, key@, i as int);
                assert(view.skip(i as int)[0] == view[i as int]);
            }
            return Some(&args[i].1);
        }
    }
    proof {
        lemma_lookup_skip(view, key@, n as int);
    }
    None
}

/// The pairs with every `ROOT+` value resolved against `root`.
pub fn resolve_pairs(args: &Vec<(String, String)>, root: &str) -> (out: Vec<(String, String)>)
    ensures
        pairs_view(out@) == resolve_all(pairs_view(args@), root@),
{
    let mut out: Vec<(String, String)> = Vec::new();
    let n = args.len();
    for i in 0..n
        invariant
            n == args@.len(),
            out@.len() == i,
            forall|j: int|
                0 <= j < i ==> (#[trigger] out@[j]).0@ == args@[j].0@ && out@[j].1@
                    == resolve_value(args@[j].1@, root@),
    {
        let name = args[i].0.clone();
        let value = match strip_root_marker(args[i].1.as_str()) {
            Some(rest) => join_path(root, rest),
            None => args[i].1.clone(),
        };
        out.push((name, value));
    }
    assert(pairs_view(out@) =~= resolve_all(pairs_view(args@), root@));
    out
}

/// A copy of the pairs.
pub fn copy_pairs(args: &Vec<(String, String)>) -> (out: Vec<(String, String)>)
    ensures
        pairs_view(out@) == pairs_view(args@),
{
    let mut out: Vec<(String, String)> = Vec::new();
    let n = args.len();
    for i in 0..n
        invariant
            n == args@.len(),
            out@.len() == i,
            forall|j: int|
                0 <= j < i ==> (#[trigger] out@[j]).0@ == args@[j].0@ && out@[j].1@
                    == args@[j].1@,
    {
        out.push((args[i].0.clone(), args[i].1.clone()));
    }
    assert(pairs_view(out@) =~= pairs_view(args@));
    out
}

} // verus!
