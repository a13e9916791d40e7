use vstd::prelude::*;

use crate::error::Error;
use crate::strutil::push_char;

verus! {

broadcast use vstd::std_specs::vec::group_vec_axioms;

/// The mathematical shape of a handlebars context: string leaves under
/// nested, ordered key lists.
pub enum ArgsView {
    Leaf(Seq<char>),
    Node(Seq<(Seq<char>, ArgsView)>),
}

/// A structured argument context: each dotted argument key addresses one
/// leaf; intermediate objects are shared between keys with a common prefix.
pub enum ArgTree {
    Str(String),
    Obj(Vec<(String, ArgTree)>),
}

/// The views of a list of named subtrees.
pub open spec fn trees_view(es: Seq<(String, ArgTree)>) -> Seq<(Seq<char>, ArgsView)>
    decreases es,
{
    if es.len() == 0 {
        Seq::empty()
    } else {
        trees_view(es.drop_last()).push((es.last().0@, tree_view(es.last().1)))
    }
}

/// The view of one tree.
pub open spec fn tree_view(t: ArgTree) -> ArgsView
    decreases t,
{
    match t {
        ArgTree::Str(s) => ArgsView::Leaf(s@),
        ArgTree::Obj(entries) => ArgsView::Node(trees_view(entries@)),
    }
}

impl View for ArgTree {
    type V = ArgsView;

    open spec fn view(&self) -> ArgsView {
        tree_view(*self)
    }
}

/// The views, element by element.
pub proof fn lemma_trees_view_char(es: Seq<(String, ArgTree)>)
    ensures
        trees_view(es).len() == es.len(),
        forall|i: int|
            0 <= i < es.len() ==> trees_view(es)[i] == ((#[trigger] es[i]).0@, tree_view(es[i].1)),
    decreases es,
{
    if es.len() > 0 {
        lemma_trees_view_char(es.drop_last());
        assert forall|i: int| 0 <= i < es.len() implies trees_view(es)[i] == (
            (#[trigger] es[i]).0@,
            tree_view(es[i].1),
        ) by {
            if i < es.len() - 1 {
                assert(es.drop_last()[i] == es[i]);
            }
        }
    }
}

/// Whether some entry carries the key.
pub open spec fn av_has_key(es: Seq<(Seq<char>, ArgsView)>, k: Seq<char>) -> bool {
    exists|i: int| 0 <= i < es.len() && (#[trigger] es[i]).0 == k
}

/// The position of the first entry carrying the key.
pub open spec fn av_first_idx(es: Seq<(Seq<char>, ArgsView)>, k: Seq<char>) -> int
    decreases es.len(),
{
    if es.len() == 0 {
        0
    } else if es[0].0 == k {
        0
    } else {
        1 + av_first_idx(es.drop_first(), k)
    }
}

/// A first-key position is exactly a match with no earlier match.
pub proof fn lemma_av_first_idx(es: Seq<(Seq<char>, ArgsView)>, k: Seq<char>, i: int)
    requires
        0 <= i < es.len(),
        es[i].0 == k,
        forall|j: int| 0 <= j < i ==> (#[trigger] es[j]).0 != k,
    ensures
        av_first_idx(es, k) == i,
    decreases i,
{
    if i > 0 {
        assert(es[0].0 != k);
        assert(es.drop_first()[i - 1] == es[i]);
        assert forall|j: int| 0 <= j < i - 1 implies (#[trigger] es.drop_first()[j]).0 != k by {
            assert(es.drop_first()[j] == es[j + 1]);
        }
        lemma_av_first_idx(es.drop_first(), k, i - 1);
    }
}

/// Writes one value at a dotted path: the first write at a leaf is
/// final, a write at or through an occupied position changes nothing,
/// and intermediate objects are created on demand.
pub open spec fn spec_insert(v: ArgsView, path: Seq<Seq<char>>, value: Seq<char>) -> ArgsView
    decreases path.len(),
{
    match v {
        ArgsView::Leaf(_) => v,
        ArgsView::Node(es) => {
            if path.len() == 0 {
                ArgsView::Node(es)
            } else {
                let k = path[0];
                if av_has_key(es, k) {
                    if path.len() == 1 {
                        ArgsView::Node(es)
                    } else {
                        let i = av_first_idx(es, k);
                        ArgsView::Node(
                            es.update(i, (k, spec_insert(es[i].1, path.drop_first(), value))),
                        )
                    }
                } else {
                    if path.len() == 1 {
                        ArgsView::Node(es.push((k, ArgsView::Leaf(value))))
                    } else {
                        ArgsView::Node(
                            es.push(
                                (
                                    k,
                                    spec_insert(
                                        ArgsView::Node(Seq::empty()),
                                        path.drop_first(),
                                        value,
                                    ),
                                ),
                            ),
                        )
                    }
                }
            }
        },
    }
}

/// The position of the first dot, or the length when there is none.
pub open spec fn first_dot(s: Seq<char>) -> int
    decreases s.len(),
{
    if s.len() == 0 {
        0
    } else if s[0] == '.' {
        0
    } else {
        1 + first_dot(s.drop_first())
    }
}

proof fn lemma_first_dot_bounds(s: Seq<char>)
    ensures
        0 <= first_dot(s) <= s.len(),
    decreases s.len(),
{
    if s.len() > 0 && s[0] != '.' {
        lemma_first_dot_bounds(s.drop_first());
    }
}

/// The first dot sits exactly after the dot-free prefix.
proof fn lemma_first_dot_at(s: Seq<char>, k: int)
    requires
        0 <= k <= s.len(),
        forall|j: int| 0 <= j < k ==> s[j] != '.',
        k < s.len() ==> s[k] == '.',
    ensures
        k < s.len() ==> first_dot(s) == k,
        k == s.len() ==> first_dot(s) == s.len(),
    decreases k,
{
    if k == 0 {
        if s.len() > 0 && s[0] != '.' {
            lemma_first_dot_bounds(s.drop_first());
        }
    } else {
        assert(s[0] != '.');
        assert forall|j: int| 0 <= j < k - 1 implies s.drop_first()[j] != '.' by {
            assert(s.drop_first()[j] == s[j + 1]);
        }
        if k < s.len() {
            assert(s.drop_first()[k - 1] == s[k]);
        }
        lemma_first_dot_at(s.drop_first(), k - 1);
    }
}

/// The segments of a key, split on every dot.
pub open spec fn dot_split(s: Seq<char>) -> Seq<Seq<char>>
    decreases s.len(),
    via dot_split_decreases
{
    if first_dot(s) >= s.len() {
        seq![s]
    } else {
        seq![s.take(first_dot(s))] + dot_split(s.skip(first_dot(s) + 1))
    }
}

#[via_fn]
proof fn dot_split_decreases(s: Seq<char>) {
    lemma_first_dot_bounds(s);
}

/// Splits an argument key on dots into its path segments.
pub fn split_key(s: &str) -> (r: Vec<String>)
    ensures
        crate::assoc::names_of(r@) == dot_split(s@),
{
    let n = s.unicode_len();
    let mut out: Vec<String> = Vec::new();
    let mut cur = String::new();
    let ghost mut start: int = 0;
    let mut i: usize = 0;
    proof {
        assert(s@.skip(0) =~= s@);
        assert(cur@ =~= s@.subrange(0, 0));
        assert(crate::assoc::names_of(Seq::<String>::empty()) + dot_split(s@) =~= dot_split(s@));
    }
    while i < n
        invariant
            n == s@.len(),
            i <= n,
            0 <= start <= i,
            cur@ == s@.subrange(start, i as int),
            forall|j: int| start <= j < i ==> s@[j] != '.',
            dot_split(s@) =~= crate::assoc::names_of(out@) + dot_split(s@.skip(start)),
        decreases n - i,
    {
        let c = s.get_char(i);
        if c == '.' {
            proof {
                let rest = s@.skip(start);
                assert forall|j: int| 0 <= j < i - start implies rest[j] != '.' by {
                    assert(rest[j] == s@[start + j]);
                }
                assert(rest[i - start] == s@[i as int]);
                lemma_first_dot_at(rest, i - start);
                assert(first_dot(rest) == i - start);
                assert(rest.take(i - start) =~= cur@);
                assert(rest.skip(i - start + 1) =~= s@.skip(i as int + 1));
                assert(dot_split(rest) =~= seq![cur@] + dot_split(s@.skip(i as int + 1)));
            }
            let ghost out0 = out@;
            out.push(cur);
            proof {
                assert(crate::assoc::names_of(out@) =~= crate::assoc::names_of(out0).push(
                    out@[out@.len() - 1]@,
                ));
            }
            cur = String::new();
            proof {
                start = i as int + 1;
                assert(cur@ =~= s@.subrange(start, i as int + 1));
            }
        } else {
            push_char(&mut cur, c);
            proof {
                assert(cur@ =~= s@.subrange(start, i as int + 1));
            }
        }
        i += 1;
    }
    proof {
        let rest = s@.skip(start);
        assert forall|j: int| 0 <= j < n - start implies rest[j] != '.' by {
            assert(rest[j] == s@[start + j]);
        }
        lemma_first_dot_at(rest, n - start);
        assert(first_dot(rest) == rest.len());
        assert(dot_split(rest) =~= seq![rest]);
        assert(rest =~= cur@);
    }
    let ghost out0 = out@;
    out.push(cur);
    proof {
        assert(crate::assoc::names_of(out@) =~= crate::assoc::names_of(out0).push(
            out@[out@.len() - 1]@,
        ));
    }
    out
}

/// Writes one value into the tree at the path's remaining segments.
fn insert_tree(t: ArgTree, path: &Vec<String>, idx: usize, value: String) -> (r: ArgTree)
    requires
        idx <= path@.len(),
    ensures
        r@ == spec_insert(t@, crate::assoc::names_of(path@).skip(idx as int), value@),
    decreases path@.len() - idx,
{
    let ghost segs = crate::assoc::names_of(path@).skip(idx as int);
    let ghost vv = value@;
    match t {
        ArgTree::Str(s) => ArgTree::Str(s),
        ArgTree::Obj(mut entries) => {
            proof {
                lemma_trees_view_char(entries@);
            }
            if idx == path.len() {
                proof {
                    assert(segs.len() == 0);
                }
                return ArgTree::Obj(entries);
            }
            let ghost k = segs[0];
            proof {
                assert(k == path@[idx as int]@);
                assert(segs.drop_first() =~= crate::assoc::names_of(path@).skip(idx as int + 1));
            }
            let n = entries.len();
            let mut i: usize = 0;
            let mut found = false;
            while i < n && !found
                invariant
                    n == entries@.len(),
                    i <= n,
                    k == path@[idx as int]@,
                    idx < path@.len(),
                    found ==> i < n && (entries@[i as int]).0@ == k,
                    forall|j: int| 0 <= j < i ==> (#[trigger] entries@[j]).0@ != k,
                decreases n - i, (if found { 0int } else { 1int }),
            {
                if crate::strutil::str_eq(entries[i].0.as_str(), path[idx].as_str()) {
                    found = true;
                } else {
                    i += 1;
                }
            }
            let ghost tv = trees_view(entries@);
            proof {
                lemma_trees_view_char(entries@);
                assert(k == path@[idx as int]@);
                assert(segs.drop_first() =~= crate::assoc::names_of(path@).skip(idx as int + 1));
            }
            if found {
                proof {
                    assert(tv[i as int].0 == k);
                    assert forall|j: int| 0 <= j < i implies (#[trigger] tv[j]).0 != k by {
                        assert(tv[j].0 == entries@[j].0@);
                    }
                    assert(av_has_key(tv, k));
                    lemma_av_first_idx(tv, k, i as int);
                }
                if idx + 1 == path.len() {
                    proof {
                        assert(segs.len() == 1);
                    }
                    ArgTree::Obj(entries)
                } else {
                    let ghost entries0 = entries@;
                    let (key, child) = entries.remove(i);
                    let child2 = insert_tree(child, path, idx + 1, value);
                    entries.insert(i, (key, child2));
                    proof {
                        assert(entries@ =~= entries0.update(
                            i as int,
                            (key, entries@[i as int].1),
                        ));
                        lemma_trees_view_char(entries@);
                        assert(trees_view(entries@) =~= tv.update(
                            i as int,
                            (k, spec_insert(tv[i as int].1, segs.drop_first(), value@)),
                        )) by {
                            assert forall|j: int| 0 <= j < entries@.len() implies trees_view(
                                entries@,
                            )[j] == tv.update(
                                i as int,
                                (k, spec_insert(tv[i as int].1, segs.drop_first(), value@)),
                            )[j] by {
                                if j != i {
                                    assert(entries@[j] == entries0[j]);
                                    assert(tv[j] == (entries0[j].0@, tree_view(entries0[j].1)));
                                }
                            }
                        }
                    }
                    ArgTree::Obj(entries)
                }
            } else {
                proof {
                    assert(!av_has_key(tv, k)) by {
                        if av_has_key(tv, k) {
                            let j = choose|j: int| 0 <= j < tv.len() && (#[trigger] tv[j]).0 == k;
                            assert(entries@[j].0@ == k);
                        }
                    }
                }
                if idx + 1 == path.len() {
                    proof {
                        assert(segs.len() == 1);
                    }
                    let ghost entries0 = entries@;
                    let keyc = path[idx].clone();
                    entries.push((keyc, ArgTree::Str(value)));
                    proof {
                        assert(entries@.drop_last() =~= entries0);
                        assert(entries@.last().0@ == k);
                        assert(tree_view(entries@.last().1) == ArgsView::Leaf(vv));
                        assert(trees_view(entries@) =~= tv.push((k, ArgsView::Leaf(vv))));
                    }
                    ArgTree::Obj(entries)
                } else {
                    let sub = insert_tree(ArgTree::Obj(Vec::new()), path, idx + 1, value);
                    let ghost subv = sub@;
                    let ghost entries0 = entries@;
                    let keyc = path[idx].clone();
                    entries.push((keyc, sub));
                    proof {
                        assert(trees_view(Seq::<(String, ArgTree)>::empty())
                            =~= Seq::<(Seq<char>, ArgsView)>::empty());
                        assert(subv == spec_insert(
                            ArgsView::Node(Seq::empty()),
                            segs.drop_first(),
                            vv,
                        ));
                        assert(entries@.drop_last() =~= entries0);
                        assert(entries@.last().0@ == k);
                        assert(tree_view(entries@.last().1) == subv);
                        assert(trees_view(entries@) =~= tv.push((k, subv)));
                    }
                    ArgTree::Obj(entries)
                }
            }
        },
    }
}

/// The context that a list of arguments denotes: each key, split on
/// dots, addresses one leaf; the first write at a leaf is final.
pub open spec fn build_ctx(args: Seq<(String, String)>) -> ArgsView
    decreases args.len(),
{
    if args.len() == 0 {
        ArgsView::Node(Seq::empty())
    } else {
        spec_insert(build_ctx(args.drop_last()), dot_split(args.last().0@), args.last().1@)
    }
}

/// Structures the arguments into the handlebars context.
pub fn build_args(args: &Vec<(String, String)>) -> (r: ArgTree)
    ensures
        r@ == build_ctx(args@),
{
    let mut t = ArgTree::Obj(Vec::new());
    proof {
        assert(trees_view(Seq::<(String, ArgTree)>::empty()) =~= Seq::<
            (Seq<char>, ArgsView),
        >::empty());
        assert(args@.take(0) =~= Seq::<(String, String)>::empty());
    }
    let n = args.len();
    let mut i: usize = 0;
    while i < n
        invariant
            n == args@.len(),
            i <= n,
            t@ == build_ctx(args@.take(i as int)),
        decreases n - i,
    {
        let path = split_key(args[i].0.as_str());
        let value = args[i].1.clone();
        proof {
            assert(crate::assoc::names_of(path@).skip(0) =~= crate::assoc::names_of(path@));
            assert(args@.take(i as int + 1).drop_last() =~= args@.take(i as int));
            assert(args@.take(i as int + 1).last() == args@[i as int]);
        }
        t = insert_tree(t, &path, 0, value);
        i += 1;
    }
    proof {
        assert(args@.take(n as int) =~= args@);
    }
    t
}

/// One hexadecimal digit.
pub open spec fn hex_digit(d: nat) -> char {
    if d == 0 {
        '0'
    } else if d == 1 {
        '1'
    } else if d == 2 {
        '2'
    } else if d == 3 {
        '3'
    } else if d == 4 {
        '4'
    } else if d == 5 {
        '5'
    } else if d == 6 {
        '6'
    } else if d == 7 {
        '7'
    } else if d == 8 {
        '8'
    } else if d == 9 {
        '9'
    } else if d == 10 {
        'a'
    } else if d == 11 {
        'b'
    } else if d == 12 {
        'c'
    } else if d == 13 {
        'd'
    } else if d == 14 {
        'e'
    } else {
        'f'
    }
}

/// The JSON escape of one character inside a string literal.
pub open spec fn escape_char(c: char) -> Seq<char> {
    if c == '"' {
        seq!['\\', '"']
    } else if c == '\\' {
        seq!['\\', '\\']
    } else if c == '\n' {
        seq!['\\', 'n']
    } else if c == '\r' {
        seq!['\\', 'r']
    } else if c == '\t' {
        seq!['\\', 't']
    } else if (c as u32) < 32 {
        seq!['\\', 'u', '0', '0', hex_digit((c as u32 / 16) as nat), hex_digit(
            (c as u32 % 16) as nat,
        )]
    } else {
        seq![c]
    }
}

/// The JSON escape of a whole string.
pub open spec fn escape_str(s: Seq<char>) -> Seq<char>
    decreases s.len(),
{
    if s.len() == 0 {
        Seq::empty()
    } else {
        escape_str(s.drop_last()) + escape_char(s.last())
    }
}

/// The JSON text of a context value.
pub open spec fn json_of(v: ArgsView) -> Seq<char>
    decreases v,
{
    match v {
        ArgsView::Leaf(s) => seq!['"'] + escape_str(s) + seq!['"'],
        ArgsView::Node(es) => seq!['{'] + json_entries(es) + seq!['}'],
    }
}

/// The JSON text of an object's entries, comma-joined.
pub open spec fn json_entries(es: Seq<(Seq<char>, ArgsView)>) -> Seq<char>
    decreases es,
{
    if es.len() == 0 {
        Seq::empty()
    } else if es.len() == 1 {
        json_entry(es.last())
    } else {
        json_entries(es.drop_last()) + seq![','] + json_entry(es.last())
    }
}

/// The JSON text of one object entry.
pub open spec fn json_entry(e: (Seq<char>, ArgsView)) -> Seq<char>
    decreases e,
{
    seq!['"'] + escape_str(e.0) + seq!['"', ':'] + json_of(e.1)
}

/// Appends the JSON escape of `s` to `out`.
fn append_escaped(out: &mut String, s: &str)
    ensures
        final(out)@ == old(out)@ + escape_str(s@),
{
    let n = s.unicode_len();
    let mut i: usize = 0;
    proof {
        assert(s@.take(0) =~= Seq::<char>::empty());
        assert(old(out)@ + escape_str(s@.take(0)) =~= old(out)@);
    }
    while i < n
        invariant
            n == s@.len(),
            i <= n,
            out@ == old(out)@ + escape_str(s@.take(i as int)),
        decreases n - i,
    {
        let c = s.get_char(i);
        proof {
            assert(s@.take(i as int + 1).drop_last() =~= s@.take(i as int));
            assert(s@.take(i as int + 1).last() == s@[i as int]);
        }
        if c == '"' {
            proof {
                reveal_strlit("\\\"");
            }
            out.append("\\\"");
            proof {
                assert("\\\""@ =~= seq!['\\', '"']);
            }
        } else if c == '\\' {
            proof {
                reveal_strlit("\\\\");
            }
            out.append("\\\\");
            proof {
                assert("\\\\"@ =~= seq!['\\', '\\']);
            }
        } else if c == '\n' {
            proof {
                reveal_strlit("\\n");
            }
            out.append("\\n");
            proof {
                assert("\\n"@ =~= seq!['\\', 'n']);
            }
        } else if c == '\r' {
            proof {
                reveal_strlit("\\r");
            }
            out.append("\\r");
            proof {
                assert("\\r"@ =~= seq!['\\', 'r']);
            }
        } else if (c as u32) < 32 {
            proof {
                reveal_strlit("\\t");
                reveal_strlit("\\u00");
            }
            if c == '\t' {
                out.append("\\t");
                proof {
                    assert("\\t"@ =~= seq!['\\', 't']);
                }
            } else {
                out.append("\\u00");
                proof {
                    assert("\\u00"@ =~= seq!['\\', 'u', '0', '0']);
                }
                let code = c as u32;
                push_char(out, hex_char(code / 16));
                push_char(out, hex_char(code % 16));
            }
        } else {
            push_char(out, c);
        }
        proof {
            assert(out@ =~= old(out)@ + escape_str(s@.take(i as int + 1)));
        }
        i += 1;
    }
    proof {
        assert(s@.take(n as int) =~= s@);
    }
}

/// The character of one hexadecimal digit.
fn hex_char(d: u32) -> (c: char)
    requires
        d < 16,
    ensures
        c == hex_digit(d as nat),
{
    if d == 0 {
        '0'
    } else if d == 1 {
        '1'
    } else if d == 2 {
        '2'
    } else if d == 3 {
        '3'
    } else if d == 4 {
        '4'
    } else if d == 5 {
        '5'
    } else if d == 6 {
        '6'
    } else if d == 7 {
        '7'
    } else if d == 8 {
        '8'
    } else if d == 9 {
        '9'
    } else if d == 10 {
        'a'
    } else if d == 11 {
        'b'
    } else if d == 12 {
        'c'
    } else if d == 13 {
        'd'
    } else if d == 14 {
        'e'
    } else {
        'f'
    }
}

/// Renders the context as JSON text.
pub fn to_json(t: &ArgTree) -> (r: String)
    ensures
        r@ == json_of(t@),
    decreases *t,
{
    match t {
        ArgTree::Str(s) => {
            proof {
                reveal_strlit("\"");
            }
            let mut out = "\"".to_owned();
            proof {
                assert(out@ =~= seq!['"']);
            }
            append_escaped(&mut out, s.as_str());
            out.append("\"");
            proof {
                assert(out@ =~= json_of(t@));
            }
            out
        },
        ArgTree::Obj(entries) => {
            proof {
                reveal_strlit("{");
                reveal_strlit("}");
                reveal_strlit("\"");
                reveal_strlit("\":");
                reveal_strlit(",");
                lemma_trees_view_char(entries@);
            }
            let mut out = "{".to_owned();
            proof {
                assert(out@ =~= seq!['{']);
                assert(trees_view(entries@.take(0)) =~= Seq::<(Seq<char>, ArgsView)>::empty());
                assert(out@ =~= seq!['{'] + json_entries(trees_view(entries@.take(0))));
            }
            let n = entries.len();
            let mut i: usize = 0;
            while i < n
                invariant
                    n == entries@.len(),
                    i <= n,
                    *t == ArgTree::Obj(*entries),
                    out@ == seq!['{'] + json_entries(trees_view(entries@.take(i as int))),
                decreases n - i,
            {
                if i > 0 {
                    out.append(",");
                }
                out.append("\"");
                append_escaped(&mut out, entries[i].0.as_str());
                out.append("\":");
                proof {
                    assert(*t == ArgTree::Obj(*entries));
                    assert((*t)->Obj_0 == *entries);
                    assert(decreases_to!(*t => (*t)->Obj_0));
                    assert(decreases_to!(*entries => entries@));
                    assert(decreases_to!(entries@ => entries@[i as int]));
                    assert(decreases_to!(entries@[i as int] => entries@[i as int].1));
                    assert(decreases_to!(*t => entries@[i as int].1));
                }
                let sub = to_json(&entries[i].1);
                out.append(sub.as_str());
                proof {
                    reveal_strlit(",");
                    reveal_strlit("\"");
                    reveal_strlit("\":");
                    let pre = trees_view(entries@.take(i as int));
                    let post = trees_view(entries@.take(i as int + 1));
                    lemma_trees_view_char(entries@.take(i as int));
                    lemma_trees_view_char(entries@.take(i as int + 1));
                    assert(entries@.take(i as int + 1).drop_last() =~= entries@.take(i as int));
                    assert(post =~= pre.push((entries@[i as int].0@, tree_view(
                        entries@[i as int].1,
                    ))));
                    assert(post.drop_last() =~= pre);
                    assert(post.last() == (entries@[i as int].0@, tree_view(entries@[i as int].1)));
                    assert(","@ =~= seq![',']);
                    assert("\""@ =~= seq!['"']);
                    assert("\":"@ =~= seq!['"', ':']);
                    assert(json_entry(post.last()) =~= seq!['"'] + escape_str(entries@[i as int].0@)
                        + seq!['"', ':'] + json_of(tree_view(entries@[i as int].1)));
                    if i == 0 {
                        assert(json_entries(post) == json_entry(post.last()));
                    } else {
                        assert(json_entries(post) == json_entries(pre) + seq![','] + json_entry(
                            post.last(),
                        ));
                    }
                    assert(out@ =~= seq!['{'] + json_entries(post));
                }
                i += 1;
            }
            out.append("}");
            proof {
                assert(entries@.take(n as int) =~= entries@);
                assert("}"@ =~= seq!['}']);
                assert(out@ =~= json_of(t@));
            }
            out
        },
    }
}

/// What handlebars strict-mode rendering gives for a template and a JSON
/// context text: `None` when rendering fails, for a missing placeholder
/// key, a malformed template, or an unparsable context.
pub uninterp spec fn hb_render(template: Seq<char>, ctx_json: Seq<char>) -> Option<Seq<char>>;

/// Relies on `handlebars::Handlebars::render_template` in strict mode,
/// with the context parsed from the JSON text by `serde_json::from_str`:
/// the outcome is a pure function of the template and the context text.
/// Errors are rendered through their `Display` impls.
#[verifier::external_body]
fn hb_render_exec(template: &str, ctx_json: &str) -> (r: Result<String, String>)
    ensures
        r matches Ok(s) ==> hb_render(template@, ctx_json@) == Some(s@),
        r matches Err(_) ==> hb_render(template@, ctx_json@) is None,
{
    let data: serde_json::Value = match serde_json::from_str(ctx_json) {
        Ok(v) => v,
        Err(e) => {
            return Err(format!("{}", e));
        },
    };
    let mut hb = handlebars::Handlebars::new();
    hb.set_strict_mode(true);
    match hb.render_template(template, &data) {
        Ok(s) => Ok(s),
        Err(e) => Err(format!("{}", e)),
    }
}

/// Renders one script template against the argument context, in strict
/// mode: success exactly when handlebars accepts the template and finds
/// every placeholder.
pub fn render_script(template: &str, ctx: &ArgTree) -> (r: Result<String, Error>)
    ensures
        r matches Ok(s) ==> hb_render(template@, json_of(ctx@)) == Some(s@),
        r matches Err(e) ==> (e matches Error::Handlebars(_)) && hb_render(
            template@,
            json_of(ctx@),
        ) is None,
        hb_render(template@, json_of(ctx@)) is Some <==> r is Ok,
{
    let ctx_json = to_json(ctx);
    match hb_render_exec(template, ctx_json.as_str()) {
        Ok(s) => Ok(s),
        Err(e) => Err(Error::Handlebars(e)),
    }
}

} // verus!
